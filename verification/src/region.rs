//! The region operand: a shape as a set of rows over one view.
//!
//! A shape is decomposed against the map's cells once per generation: the rows of every tile wholly
//! inside it, and the cells its boundary crosses with the rows each of them occupies. That half
//! holds nothing about a principal. The rows of a boundary cell are tested one by one, and only the
//! rows the request's mask admits are handed out to be tested.

use croaring::Bitmap;
use vstd::arithmetic::power2::pow2;
use vstd::bits::lemma_u64_shr_is_div;
use vstd::prelude::*;

use crate::bitmap;
use crate::bitmap::bits;
use crate::hashing::{sha256, sha256_of};
use crate::occupancy::walk::{lemma_tiles_ascend, tile_at, tile_of};
use crate::occupancy::SegmentCodes;
use crate::order::{search, sorted, stable_sort, strictly_sorted, ties, Ranked};
use crate::runs::{covered, covers};
use crate::text::{decimal, digits};

verus! {

/// The most boundary cells a region's descent holds at one depth before it stops and answers a
/// cover.
pub const DEFAULT_MAX_REGION_CELLS: usize = 262_144;

/// Whether a region's answer is exact for the shape, or exact for a cover of it taken at the depth
/// the budget stopped the descent at.
#[derive(Debug, Clone, Copy, PartialEq, Eq, Structural)]
pub enum RegionVerdict {
    Exact,
    Cover { depth: u8 },
}

impl RegionVerdict {
    /// The header's text.
    pub open spec fn header_text(self) -> Seq<char> {
        match self {
            RegionVerdict::Exact => "exact"@,
            RegionVerdict::Cover { depth } => "cover; depth="@ + digits(depth as nat),
        }
    }

    /// The header's value.
    pub fn header_value(self) -> (text: String)
        ensures
            text@ == self.header_text(),
    {
        match self {
            RegionVerdict::Exact => String::from_str("exact"),
            RegionVerdict::Cover { depth } => String::from_str("cover; depth=").concat(
                decimal(depth as u64).as_str(),
            ),
        }
    }

    /// The coarser of two verdicts: a cover anywhere makes the answer a cover, at the shallowest
    /// depth either stopped at.
    pub open spec fn coarser_of(self, other: RegionVerdict) -> RegionVerdict {
        match (self, other) {
            (RegionVerdict::Exact, v) => v,
            (v, RegionVerdict::Exact) => v,
            (RegionVerdict::Cover { depth: a }, RegionVerdict::Cover { depth: b }) =>
                RegionVerdict::Cover {
                depth: if a < b {
                    a
                } else {
                    b
                },
            },
        }
    }

    /// The coarser of two verdicts.
    pub fn coarser(self, other: RegionVerdict) -> (verdict: RegionVerdict)
        ensures
            verdict == self.coarser_of(other),
    {
        match (self, other) {
            (RegionVerdict::Exact, v) => v,
            (v, RegionVerdict::Exact) => v,
            (RegionVerdict::Cover { depth: a }, RegionVerdict::Cover { depth: b }) =>
                RegionVerdict::Cover {
                depth: if a < b {
                    a
                } else {
                    b
                },
            },
        }
    }

    /// [`Self::coarser_of`] over two answers that may carry no verdict, where no region was
    /// evaluated.
    pub open spec fn coarsest_of(a: Option<RegionVerdict>, b: Option<RegionVerdict>) -> Option<
        RegionVerdict,
    > {
        match (a, b) {
            (Some(a), Some(b)) => Some(a.coarser_of(b)),
            (Some(a), None) => Some(a),
            (None, b) => b,
        }
    }

    /// [`Self::coarser`] over two answers that may carry no verdict.
    pub fn coarsest(a: Option<RegionVerdict>, b: Option<RegionVerdict>) -> (verdict: Option<
        RegionVerdict,
    >)
        ensures
            verdict == RegionVerdict::coarsest_of(a, b),
    {
        match (a, b) {
            (Some(a), Some(b)) => Some(a.coarser(b)),
            (Some(a), None) => Some(a),
            (None, b) => b,
        }
    }
}

/// The coarsest of any number of answers does not depend on the order they are taken in, or on how
/// often one is taken.
pub proof fn law_coarsest_is_a_join(
    a: Option<RegionVerdict>,
    b: Option<RegionVerdict>,
    c: Option<RegionVerdict>,
)
    ensures
        RegionVerdict::coarsest_of(a, b) == RegionVerdict::coarsest_of(b, a),
        RegionVerdict::coarsest_of(a, RegionVerdict::coarsest_of(b, c))
            == RegionVerdict::coarsest_of(RegionVerdict::coarsest_of(a, b), c),
        RegionVerdict::coarsest_of(a, a) == a,
        RegionVerdict::coarsest_of(a, None) == a,
{
}

/// The content address of a shape: the first 128 bits of SHA-256 over its canonical bytes.
pub fn digest_of(canonical: &[u8]) -> (digest: [u8; 16])
    ensures
        sha256_of(canonical@).len() == 32,
        digest@ == sha256_of(canonical@).take(16),
{
    let full: [u8; 32] = sha256(canonical);
    let mut digest: [u8; 16] = [0; 16];
    let mut i: usize = 0;
    while i < 16
        invariant
            i <= 16,
            full@ == sha256_of(canonical@),
            forall|k: int| 0 <= k < i ==> digest@[k] == full@[k],
        decreases 16 - i,
    {
        digest[i] = full[i];
        i += 1;
    }
    assert(digest@ =~= full@.take(16));
    digest
}

/// A tile of the map.
#[derive(Clone, Copy, Debug, PartialEq, Eq, Structural)]
pub struct Tile {
    pub prefix: u64,
    pub depth: u8,
}

/// A cell that a shape's boundary crosses, and which of the descent's contexts its rows are tested
/// against.
#[derive(Clone, Copy, Debug, PartialEq, Eq, Structural)]
pub struct BoundaryCell {
    pub cell: u32,
    pub context: u32,
}

/// Boundary cells in the order of their codes.
impl Ranked for BoundaryCell {
    open spec fn precedes(self, other: Self) -> bool {
        self.cell <= other.cell
    }

    proof fn precedes_total(x: Self, y: Self) {
    }

    proof fn precedes_transitive(x: Self, y: Self, z: Self) {
    }

    fn at_most(&self, other: &Self) -> (yes: bool) {
        self.cell <= other.cell
    }
}

/// What a descent of a shape through the map's cells came to: the tiles wholly inside, the tiles
/// that cover the rest where the budget stopped it, and otherwise the cells its boundary crosses.
#[derive(Debug)]
pub struct Descent {
    pub interior: Vec<Tile>,
    pub cover: Vec<Tile>,
    pub boundary: Vec<BoundaryCell>,
    /// The depth the budget stopped the descent at.
    pub cover_depth: Option<u8>,
}

impl Descent {
    /// The tiles are of the map's depths, and a cell is crossed once.
    pub open spec fn wf(&self) -> bool {
        &&& forall|t: int|
            0 <= t < self.interior@.len() ==> (#[trigger] self.interior@[t]).depth <= 16
        &&& forall|t: int| 0 <= t < self.cover@.len() ==> (#[trigger] self.cover@[t]).depth <= 16
        &&& forall|i: int, j: int|
            0 <= i < j < self.boundary@.len() ==> (#[trigger] self.boundary@[i]).cell != (
            #[trigger] self.boundary@[j]).cell
    }
}

/// Whether a segment's row lies in a tile.
pub open spec fn in_tile(segment: SegmentCodes, tile: Tile, local: int) -> bool {
    0 <= local < segment.rows() && tile_at(segment.codes@[local], tile.depth) == tile.prefix
}

/// Whether one of the tiles holds a row of one of the segments.
pub open spec fn in_tiles(segments: Seq<SegmentCodes>, tiles: Seq<Tile>, row: u32) -> bool {
    exists|s: int, t: int|
        0 <= s < segments.len() && 0 <= t < tiles.len() && #[trigger] in_tile(
            segments[s],
            #[trigger] tiles[t],
            row - segments[s].row_base,
        )
}

/// The first row of a segment whose tile is at least `prefix`.
fn lower_bound(segment: &SegmentCodes, depth: u8, prefix: u64, rows: u32) -> (at: u32)
    requires
        segment.wf(),
        depth <= 16,
        rows == segment.rows(),
    ensures
        at <= rows,
        forall|r: int| 0 <= r < at ==> tile_at(#[trigger] segment.codes@[r], depth) < prefix,
        forall|r: int| at <= r < rows ==> tile_at(#[trigger] segment.codes@[r], depth) >= prefix,
{
    let mut lo: u32 = 0;
    let mut hi: u32 = rows;
    while lo < hi
        invariant
            segment.wf(),
            depth <= 16,
            rows == segment.rows(),
            lo <= hi <= rows,
            forall|r: int| 0 <= r < lo ==> tile_at(#[trigger] segment.codes@[r], depth) < prefix,
            forall|r: int|
                hi <= r < rows ==> tile_at(#[trigger] segment.codes@[r], depth) >= prefix,
        decreases hi - lo,
    {
        let mid: u32 = lo + (hi - lo) / 2;
        if tile_of(segment.codes[mid as usize], depth) < prefix {
            proof {
                assert forall|r: int| 0 <= r <= mid implies tile_at(
                    #[trigger] segment.codes@[r],
                    depth,
                ) < prefix by {
                    if r < mid {
                        lemma_tiles_ascend(segment.codes@[r], segment.codes@[mid as int], depth);
                    }
                }
            }
            lo = mid + 1;
        } else {
            proof {
                assert forall|r: int| mid <= r < rows implies tile_at(
                    #[trigger] segment.codes@[r],
                    depth,
                ) >= prefix by {
                    if r > mid {
                        lemma_tiles_ascend(segment.codes@[mid as int], segment.codes@[r], depth);
                    }
                }
            }
            hi = mid;
        }
    }
    lo
}

/// How many rows of a segment have a code.
fn coded_rows(segment: &SegmentCodes) -> (rows: u32)
    requires
        segment.wf(),
    ensures
        rows == segment.rows(),
{
    if (segment.row_count as usize) < segment.codes.len() {
        segment.row_count
    } else {
        segment.codes.len() as u32
    }
}

/// The rows of a segment that lie in a tile, as a range.
pub fn tile_range(segment: &SegmentCodes, tile: Tile) -> (range: (u32, u32))
    requires
        segment.wf(),
        tile.depth <= 16,
    ensures
        range.0 <= range.1 <= segment.rows(),
        forall|r: int| #[trigger] in_tile(*segment, tile, r) <==> covers(range, r),
        forall|r: int|
            0 <= r < range.0 ==> tile_at(#[trigger] segment.codes@[r], tile.depth) < tile.prefix,
        forall|r: int|
            range.0 <= r < segment.rows() ==> tile_at(#[trigger] segment.codes@[r], tile.depth)
                >= tile.prefix,
{
    let rows: u32 = coded_rows(segment);
    let lo: u32 = lower_bound(segment, tile.depth, tile.prefix, rows);
    let hi: u32 = if tile.prefix == u64::MAX {
        rows
    } else {
        lower_bound(segment, tile.depth, tile.prefix + 1, rows)
    };
    proof {
        if hi < lo {
            assert(tile_at(segment.codes@[hi as int], tile.depth) < tile.prefix);
        }
        assert forall|r: int| #[trigger] in_tile(*segment, tile, r) <==> covers((lo, hi), r) by {
            if 0 <= r < rows {
                let code = segment.codes@[r];
                assert(r < lo ==> tile_at(code, tile.depth) < tile.prefix);
                assert(r >= lo ==> tile_at(code, tile.depth) >= tile.prefix);
                if tile.prefix < u64::MAX {
                    assert(r < hi ==> tile_at(code, tile.depth) < tile.prefix + 1);
                    assert(r >= hi ==> tile_at(code, tile.depth) >= tile.prefix + 1);
                }
            }
        }
    }
    (lo, hi)
}

/// The rows of the segments that lie in the tiles, joined to a set.
fn add_tiles(rows: &mut Bitmap, segments: &Vec<SegmentCodes>, tiles: &Vec<Tile>)
    requires
        forall|s: int| 0 <= s < segments@.len() ==> (#[trigger] segments@[s]).wf(),
        forall|t: int| 0 <= t < tiles@.len() ==> (#[trigger] tiles@[t]).depth <= 16,
    ensures
        forall|row: u32| #[trigger]
            bits(*final(rows)).contains(row) <==> bits(*old(rows)).contains(row) || in_tiles(
                segments@,
                tiles@,
                row,
            ),
{
    let ghost before = bits(*rows);
    let mut s: usize = 0;
    while s < segments.len()
        invariant
            s <= segments@.len(),
            forall|k: int| 0 <= k < segments@.len() ==> (#[trigger] segments@[k]).wf(),
            forall|t: int| 0 <= t < tiles@.len() ==> (#[trigger] tiles@[t]).depth <= 16,
            forall|row: u32| #[trigger]
                bits(*rows).contains(row) <==> before.contains(row) || in_tiles(
                    segments@.take(s as int),
                    tiles@,
                    row,
                ),
        decreases segments@.len() - s,
    {
        let segment = &segments[s];
        assert(segments@[s as int].wf());
        let ghost earlier = bits(*rows);
        let mut t: usize = 0;
        while t < tiles.len()
            invariant
                t <= tiles@.len(),
                segment.wf(),
                forall|k: int| 0 <= k < tiles@.len() ==> (#[trigger] tiles@[k]).depth <= 16,
                forall|row: u32| #[trigger]
                    bits(*rows).contains(row) <==> earlier.contains(row) || in_some(
                        *segment,
                        tiles@,
                        row,
                        t as int,
                    ),
            decreases tiles@.len() - t,
        {
            assert(tiles@[t as int].depth <= 16);
            let (lo, hi): (u32, u32) = tile_range(segment, tiles[t]);
            let ghost was = bits(*rows);
            if lo < hi {
                bitmap::insert_range(rows, segment.row_base + lo, segment.row_base + (hi - 1));
            }
            proof {
                assert forall|row: u32| #[trigger]
                    bits(*rows).contains(row) <==> earlier.contains(row) || in_some(
                        *segment,
                        tiles@,
                        row,
                        t + 1,
                    ) by {
                    let local = row - segment.row_base;
                    assert(in_tile(*segment, tiles@[t as int], local) <==> covers((lo, hi), local));
                    assert(was.contains(row) <==> earlier.contains(row) || in_some(
                        *segment,
                        tiles@,
                        row,
                        t as int,
                    ));
                    if in_some(*segment, tiles@, row, t as int) {
                        let k = choose|k: int|
                            0 <= k < t && in_tile(*segment, #[trigger] tiles@[k], local);
                        assert(0 <= k < t + 1 && in_tile(*segment, tiles@[k], local));
                    }
                    if in_some(*segment, tiles@, row, t + 1) {
                        let k = choose|k: int|
                            0 <= k < t + 1 && in_tile(*segment, #[trigger] tiles@[k], local);
                        if k < t {
                            assert(in_some(*segment, tiles@, row, t as int));
                        }
                    }
                }
            }
            t += 1;
        }
        proof {
            let was = segments@.take(s as int);
            let now = segments@.take(s + 1);
            assert forall|row: u32| #[trigger]
                bits(*rows).contains(row) <==> before.contains(row) || in_tiles(
                    now,
                    tiles@,
                    row,
                ) by {
                assert(earlier.contains(row) <==> before.contains(row) || in_tiles(
                    was,
                    tiles@,
                    row,
                ));
                if in_tiles(was, tiles@, row) {
                    let (k, t) = choose|k: int, t: int|
                        0 <= k < was.len() && 0 <= t < tiles@.len() && #[trigger] in_tile(
                            was[k],
                            #[trigger] tiles@[t],
                            row - was[k].row_base,
                        );
                    assert(now[k] == was[k]);
                    assert(in_tile(now[k], tiles@[t], row - now[k].row_base));
                }
                if in_tiles(now, tiles@, row) {
                    let (k, t) = choose|k: int, t: int|
                        0 <= k < now.len() && 0 <= t < tiles@.len() && #[trigger] in_tile(
                            now[k],
                            #[trigger] tiles@[t],
                            row - now[k].row_base,
                        );
                    if k < s {
                        assert(was[k] == now[k]);
                        assert(in_tile(was[k], tiles@[t], row - was[k].row_base));
                    } else {
                        assert(in_some(*segment, tiles@, row, tiles@.len() as int));
                    }
                }
                if in_some(*segment, tiles@, row, tiles@.len() as int) {
                    let t = choose|t: int|
                        0 <= t < tiles@.len() && in_tile(
                            *segment,
                            #[trigger] tiles@[t],
                            row - segment.row_base,
                        );
                    assert(now[s as int] == *segment);
                    assert(in_tile(now[s as int], tiles@[t], row - now[s as int].row_base));
                }
            }
        }
        s += 1;
    }
    assert(segments@.take(s as int) =~= segments@);
}

/// Whether one of the first `n` tiles holds a row of a segment.
pub open spec fn in_some(segment: SegmentCodes, tiles: Seq<Tile>, row: u32, n: int) -> bool {
    exists|t: int| 0 <= t < n && in_tile(segment, #[trigger] tiles[t], row - segment.row_base)
}

/// The cell of a code as a tile.
pub open spec fn cell_tile(cell: u32) -> Tile {
    Tile { prefix: cell as u64, depth: 16 }
}

/// A shape decomposed against one generation's rows: the half that holds nothing about a principal.
#[derive(Debug)]
pub struct RegionDecomposition {
    /// The canonical bytes of the shape.
    pub canonical: Vec<u8>,
    /// Every row of every interior tile and, under a cover, of every cover tile.
    pub interior: Bitmap,
    /// The cells the boundary crosses, ascending.
    pub boundary: Vec<BoundaryCell>,
    /// Per segment, the rows each boundary cell occupies in it.
    pub boundary_ranges: Vec<Vec<(u32, u32)>>,
    pub verdict: RegionVerdict,
}

/// A row of a boundary cell that the mask admits, to be tested against the shape.
#[derive(Clone, Copy, Debug, PartialEq, Eq, Structural)]
pub struct Probe {
    pub row: u32,
    /// Which segment the row is of, and its place in it.
    pub segment: usize,
    pub local: u32,
    /// Which boundary cell it lies in.
    pub cell: usize,
}

/// One region's answer for one request.
#[derive(Debug)]
pub struct RegionRows {
    pub rows: Bitmap,
    pub verdict: RegionVerdict,
}

/// Whether a boundary holds a cell.
pub open spec fn crosses(boundary: Seq<BoundaryCell>, cell: u32) -> bool {
    exists|c: int| 0 <= c < boundary.len() && (#[trigger] boundary[c]).cell == cell
}

/// Whether the ranges are those of the boundary's cells in a segment.
pub open spec fn ranges_of(
    ranges: Seq<(u32, u32)>,
    boundary: Seq<BoundaryCell>,
    segment: SegmentCodes,
) -> bool {
    &&& ranges.len() == boundary.len()
    &&& forall|c: int|
        0 <= c < ranges.len() ==> (#[trigger] ranges[c]).0 <= ranges[c].1 <= segment.rows()
    &&& forall|c: int, r: int|
        0 <= c < ranges.len() ==> (#[trigger] in_tile(segment, cell_tile(boundary[c].cell), r)
            <==> covers(ranges[c], r))
    &&& forall|c: int, d: int|
        0 <= c < d < ranges.len() ==> (#[trigger] ranges[c]).0 <= (#[trigger] ranges[d]).0
}

/// Whether a row is visible, of a segment, and in a cell the boundary crosses.
pub open spec fn probed(
    boundary: Seq<BoundaryCell>,
    segment: SegmentCodes,
    mask: Set<u32>,
    row: u32,
) -> bool {
    let local = row - segment.row_base;
    &&& mask.contains(row)
    &&& 0 <= local < segment.rows()
    &&& crosses(boundary, segment.codes@[local])
}

/// A code is its own cell.
proof fn lemma_cell(code: u32)
    ensures
        tile_at(code, 16) == code as u64,
{
    let c = code as u64;
    assert(c >> 0u64 == c) by (bit_vector);
}

impl RegionDecomposition {
    /// The boundary ascends.
    pub open spec fn wf(&self) -> bool {
        strictly_sorted(self.boundary@)
    }

    /// Whether this was built over segments, from a descent of a shape.
    pub open spec fn decomposes(
        &self,
        canonical: Seq<u8>,
        descent: Descent,
        segments: Seq<SegmentCodes>,
    ) -> bool {
        &&& self.wf()
        &&& self.canonical@ == canonical
        &&& self.verdict == match descent.cover_depth {
            Some(depth) => RegionVerdict::Cover { depth },
            None => RegionVerdict::Exact,
        }
        &&& forall|row: u32| #[trigger]
            bits(self.interior).contains(row) <==> in_tiles(segments, descent.interior@, row)
                || in_tiles(segments, descent.cover@, row)
        &&& self.boundary@.to_multiset() == descent.boundary@.to_multiset()
        &&& self.over(segments)
    }

    /// Whether the boundary's rows are those of segments.
    pub open spec fn over(&self, segments: Seq<SegmentCodes>) -> bool {
        &&& self.boundary_ranges@.len() == segments.len()
        &&& forall|s: int|
            0 <= s < segments.len() ==> ranges_of(
                (#[trigger] self.boundary_ranges@[s])@,
                self.boundary@,
                segments[s],
            )
    }

    /// Decompose a shape, descended through the map's cells, against segments. No row is read.
    pub fn build(canonical: Vec<u8>, descent: Descent, segments: &Vec<SegmentCodes>) -> (held:
        RegionDecomposition)
        requires
            descent.wf(),
            forall|s: int| 0 <= s < segments@.len() ==> (#[trigger] segments@[s]).wf(),
        ensures
            held.decomposes(canonical@, descent, segments@),
    {
        let verdict: RegionVerdict = match descent.cover_depth {
            Some(depth) => RegionVerdict::Cover { depth },
            None => RegionVerdict::Exact,
        };
        let mut interior = bitmap::empty();
        add_tiles(&mut interior, segments, &descent.interior);
        add_tiles(&mut interior, segments, &descent.cover);
        bitmap::run_optimize(&mut interior);
        let ghost crossed = descent.boundary@;
        let boundary = stable_sort(descent.boundary);
        proof {
            lemma_distinct_cells(crossed, boundary@);
        }
        let mut boundary_ranges: Vec<Vec<(u32, u32)>> = Vec::new();
        let mut s: usize = 0;
        while s < segments.len()
            invariant
                s <= segments@.len(),
                strictly_sorted(boundary@),
                forall|k: int| 0 <= k < segments@.len() ==> (#[trigger] segments@[k]).wf(),
                boundary_ranges@.len() == s,
                forall|k: int|
                    0 <= k < s ==> ranges_of(
                        (#[trigger] boundary_ranges@[k])@,
                        boundary@,
                        segments@[k],
                    ),
            decreases segments@.len() - s,
        {
            assert(segments@[s as int].wf());
            boundary_ranges.push(cell_ranges(&boundary, &segments[s]));
            s += 1;
        }
        RegionDecomposition { canonical, interior, boundary, boundary_ranges, verdict }
    }

    /// Whether this was built from exactly these canonical bytes: a digest that collides is told
    /// apart.
    pub fn is_of(&self, canonical: &[u8]) -> (yes: bool)
        ensures
            yes == (self.canonical@ == canonical@),
    {
        if self.canonical.len() != canonical.len() {
            return false;
        }
        let mut i: usize = 0;
        while i < canonical.len()
            invariant
                i <= canonical@.len() == self.canonical@.len(),
                forall|k: int| 0 <= k < i ==> self.canonical@[k] == canonical@[k],
            decreases canonical@.len() - i,
        {
            if self.canonical[i] != canonical[i] {
                return false;
            }
            i += 1;
        }
        assert(self.canonical@ =~= canonical@);
        true
    }

    /// Whether the answer is exact or a cover.
    pub fn verdict(&self) -> (verdict: RegionVerdict)
        ensures
            verdict == self.verdict,
    {
        self.verdict
    }

    /// How many cells the boundary crosses.
    pub fn boundary_cells(&self) -> (count: usize)
        ensures
            count == self.boundary@.len(),
    {
        self.boundary.len()
    }

    /// The rows of the boundary's cells that a mask admits, in one segment.
    fn probes_in(&self, mask: &Bitmap, at: usize, segment: &SegmentCodes, probes: &mut Vec<Probe>)
        requires
            self.wf(),
            segment.wf(),
            at < self.boundary_ranges@.len(),
            ranges_of(self.boundary_ranges@[at as int]@, self.boundary@, *segment),
        ensures
            old(probes)@.len() <= final(probes)@.len(),
            final(probes)@.take(old(probes)@.len() as int) == old(probes)@,
            forall|p: int|
                old(probes)@.len() <= p < final(probes)@.len() ==> self.is_probe(
                    #[trigger] final(probes)@[p],
                    at,
                    *segment,
                    bits(*mask),
                ),
            forall|row: u32| #[trigger]
                probed(self.boundary@, *segment, bits(*mask), row) ==> lists_row(
                    final(probes)@,
                    row,
                ),
    {
        let ghost before = probes@;
        let runs = joined_runs(&self.boundary_ranges[at]);
        let mut k: usize = 0;
        while k < runs.len()
            invariant
                k <= runs@.len(),
                self.wf(),
                segment.wf(),
                at < self.boundary_ranges@.len(),
                forall|j: int|
                    0 <= j < runs@.len() ==> (#[trigger] runs@[j]).0 <= runs@[j].1
                        <= segment.rows(),
                before.len() <= probes@.len(),
                probes@.take(before.len() as int) == before,
                forall|p: int|
                    before.len() <= p < probes@.len() ==> self.is_probe(
                        #[trigger] probes@[p],
                        at,
                        *segment,
                        bits(*mask),
                    ),
                forall|row: u32|
                    probed(self.boundary@, *segment, bits(*mask), row) && #[trigger] covered(
                        runs@.take(k as int),
                        row - segment.row_base,
                    ) ==> lists_row(probes@, row),
            decreases runs@.len() - k,
        {
            let (start, end): (u32, u32) = runs[k];
            let ghost earlier = probes@;
            if start < end {
                let mut window = bitmap::empty();
                bitmap::insert_range(
                    &mut window,
                    segment.row_base + start,
                    segment.row_base + (end - 1),
                );
                bitmap::intersect_with(&mut window, mask);
                let visible = bitmap::elements(&window);
                assert forall|row: u32|
                    visible@.contains(row) <==> bits(*mask).contains(row) && covers(
                        (start, end),
                        row - segment.row_base,
                    ) by {
                    assert(visible@.to_set().contains(row) == bits(window).contains(row));
                }
                let mut i: usize = 0;
                while i < visible.len()
                    invariant
                        i <= visible@.len(),
                        self.wf(),
                        segment.wf(),
                        start < end <= segment.rows(),
                        forall|row: u32|
                            visible@.contains(row) <==> bits(*mask).contains(row) && covers(
                                (start, end),
                                row - segment.row_base,
                            ),
                        earlier.len() <= probes@.len(),
                        probes@.take(earlier.len() as int) == earlier,
                        forall|p: int|
                            earlier.len() <= p < probes@.len() ==> self.is_probe(
                                #[trigger] probes@[p],
                                at,
                                *segment,
                                bits(*mask),
                            ),
                        forall|row: u32|
                            visible@.take(i as int).contains(row) && #[trigger] probed(
                                self.boundary@,
                                *segment,
                                bits(*mask),
                                row,
                            ) ==> lists_row(probes@, row),
                    decreases visible@.len() - i,
                {
                    let row: u32 = visible[i];
                    assert(visible@.contains(visible@[i as int]));
                    let local: u32 = row - segment.row_base;
                    let code: u32 = segment.codes[local as usize];
                    let found = search(&self.boundary, &BoundaryCell { cell: code, context: 0 });
                    let ghost was = probes@;
                    if let Some(cell) = found {
                        probes.push(Probe { row, segment: at, local, cell });
                        assert(self.is_probe(
                            probes@[was.len() as int],
                            at,
                            *segment,
                            bits(*mask),
                        ));
                    }
                    proof {
                        assert(probes@.take(earlier.len() as int) =~= was.take(
                            earlier.len() as int,
                        ));
                        let seen = visible@.take(i as int);
                        let more = visible@.take(i + 1);
                        assert(more =~= seen.push(row));
                        assert forall|other: u32|
                            visible@.take(i + 1).contains(other) && #[trigger] probed(
                                self.boundary@,
                                *segment,
                                bits(*mask),
                                other,
                            ) implies lists_row(probes@, other) by {
                            if other == row {
                                let c = choose|c: int|
                                    0 <= c < self.boundary@.len() && (
                                    #[trigger] self.boundary@[c]).cell == code;
                                assert(ties(
                                    self.boundary@[c],
                                    BoundaryCell { cell: code, context: 0 },
                                ));
                                assert(probes@[was.len() as int].row == other);
                            } else {
                                let j = choose|j: int| 0 <= j < more.len() && more[j] == other;
                                assert(seen[j] == other);
                                assert(seen.contains(other));
                                assert(lists_row(was, other));
                                let p = choose|p: int|
                                    0 <= p < was.len() && (#[trigger] was[p]).row == other;
                                assert(probes@[p].row == other);
                            }
                        }
                    }
                    i += 1;
                }
                assert(visible@.take(i as int) =~= visible@);
            }
            proof {
                assert(probes@.take(before.len() as int) =~= before) by {
                    assert forall|p: int| 0 <= p < before.len() implies probes@[p] == before[p] by {
                        assert(probes@[p] == probes@.take(earlier.len() as int)[p]);
                        assert(before[p] == earlier.take(before.len() as int)[p]);
                    }
                }
                assert forall|p: int| before.len() <= p < probes@.len() implies self.is_probe(
                    #[trigger] probes@[p],
                    at,
                    *segment,
                    bits(*mask),
                ) by {
                    if p < earlier.len() {
                        assert(probes@[p] == probes@.take(earlier.len() as int)[p]);
                    }
                }
                assert forall|row: u32|
                    probed(self.boundary@, *segment, bits(*mask), row) && #[trigger] covered(
                        runs@.take(k + 1),
                        row - segment.row_base,
                    ) implies lists_row(probes@, row) by {
                    let j = choose|j: int|
                        0 <= j < runs@.take(k + 1).len() && covers(
                            #[trigger] runs@.take(k + 1)[j],
                            row - segment.row_base,
                        );
                    if j < k {
                        assert(runs@.take(k as int)[j] == runs@.take(k + 1)[j]);
                        assert(covered(runs@.take(k as int), row - segment.row_base));
                        assert(lists_row(earlier, row));
                        let p = choose|p: int|
                            0 <= p < earlier.len() && (#[trigger] earlier[p]).row == row;
                        assert(probes@.take(earlier.len() as int)[p] == probes@[p]);
                        assert(probes@[p].row == row);
                    } else {
                        assert(covers((start, end), row - segment.row_base));
                    }
                }
            }
            k += 1;
        }
        proof {
            assert(runs@.take(k as int) =~= runs@);
            assert forall|row: u32| #[trigger]
                probed(self.boundary@, *segment, bits(*mask), row) implies lists_row(
                probes@,
                row,
            ) by {
                let local = row - segment.row_base;
                let code = segment.codes@[local];
                let c = choose|c: int|
                    0 <= c < self.boundary@.len() && (#[trigger] self.boundary@[c]).cell == code;
                lemma_cell(code);
                assert(in_tile(*segment, cell_tile(self.boundary@[c].cell), local));
                assert(covers(self.boundary_ranges@[at as int]@[c], local));
                assert(covered(self.boundary_ranges@[at as int]@, local));
                assert(covered(runs@, local));
            }
        }
    }

    /// Whether a probe is of a visible row of a segment, in the cell it names.
    pub open spec fn is_probe(
        &self,
        probe: Probe,
        at: usize,
        segment: SegmentCodes,
        mask: Set<u32>,
    ) -> bool {
        &&& probe.segment == at
        &&& probe.local < segment.rows()
        &&& probe.row == segment.row_base + probe.local
        &&& mask.contains(probe.row)
        &&& probe.cell < self.boundary@.len()
        &&& self.boundary@[probe.cell as int].cell == segment.codes@[probe.local as int]
    }

    /// The rows to be tested against the shape for a mask: of each boundary cell's rows only those
    /// the mask admits, each with its segment, its place in it and its cell. The mask goes in first,
    /// so no row that a principal is not served is read.
    pub fn probes(&self, mask: &Bitmap, segments: &Vec<SegmentCodes>) -> (probes: Vec<Probe>)
        requires
            self.wf(),
            self.over(segments@),
            forall|s: int| 0 <= s < segments@.len() ==> (#[trigger] segments@[s]).wf(),
        ensures
            forall|p: int|
                0 <= p < probes@.len() ==> (#[trigger] probes@[p]).segment < segments@.len()
                    && self.is_probe(
                    probes@[p],
                    probes@[p].segment,
                    segments@[probes@[p].segment as int],
                    bits(*mask),
                ),
            forall|s: int, row: u32|
                0 <= s < segments@.len() && #[trigger] probed(
                    self.boundary@,
                    segments@[s],
                    bits(*mask),
                    row,
                ) ==> lists_row(probes@, row),
    {
        let mut probes: Vec<Probe> = Vec::new();
        let mut s: usize = 0;
        while s < segments.len()
            invariant
                s <= segments@.len(),
                self.wf(),
                self.over(segments@),
                forall|k: int| 0 <= k < segments@.len() ==> (#[trigger] segments@[k]).wf(),
                forall|p: int|
                    0 <= p < probes@.len() ==> (#[trigger] probes@[p]).segment < segments@.len()
                        && self.is_probe(
                        probes@[p],
                        probes@[p].segment,
                        segments@[probes@[p].segment as int],
                        bits(*mask),
                    ),
                forall|k: int, row: u32|
                    0 <= k < s && #[trigger] probed(
                        self.boundary@,
                        segments@[k],
                        bits(*mask),
                        row,
                    ) ==> lists_row(probes@, row),
            decreases segments@.len() - s,
        {
            let ghost earlier = probes@;
            assert(segments@[s as int].wf());
            assert(ranges_of(
                self.boundary_ranges@[s as int]@,
                self.boundary@,
                segments@[s as int],
            ));
            self.probes_in(mask, s, &segments[s], &mut probes);
            proof {
                assert forall|p: int| 0 <= p < probes@.len() implies (
                #[trigger] probes@[p]).segment < segments@.len() && self.is_probe(
                    probes@[p],
                    probes@[p].segment,
                    segments@[probes@[p].segment as int],
                    bits(*mask),
                ) by {
                    if p < earlier.len() {
                        assert(probes@[p] == probes@.take(earlier.len() as int)[p]);
                        assert(earlier[p].segment < segments@.len());
                    } else {
                        assert(self.is_probe(probes@[p], s, segments@[s as int], bits(*mask)));
                    }
                }
                assert forall|k: int, row: u32|
                    0 <= k < s + 1 && #[trigger] probed(
                        self.boundary@,
                        segments@[k],
                        bits(*mask),
                        row,
                    ) implies lists_row(probes@, row) by {
                    if k < s {
                        assert(lists_row(earlier, row));
                        let p = choose|p: int|
                            0 <= p < earlier.len() && (#[trigger] earlier[p]).row == row;
                        assert(probes@.take(earlier.len() as int)[p] == probes@[p]);
                        assert(probes@[p].row == row);
                    }
                }
            }
            s += 1;
        }
        probes
    }

    /// The rows inside the shape for a mask: the interior whole, and of the probes the ones that
    /// tested inside.
    pub fn rows_under(&self, probes: &Vec<Probe>, inside: &Vec<bool>) -> (answer: RegionRows)
        requires
            inside@.len() == probes@.len(),
        ensures
            answer.verdict == self.verdict,
            forall|row: u32| #[trigger]
                bits(answer.rows).contains(row) <==> bits(self.interior).contains(row)
                    || tested_inside(probes@, inside@, row, probes@.len() as int),
    {
        let mut rows = bitmap::copy(&self.interior);
        let mut p: usize = 0;
        while p < probes.len()
            invariant
                p <= probes@.len() == inside@.len(),
                forall|row: u32| #[trigger]
                    bits(rows).contains(row) <==> bits(self.interior).contains(row)
                        || tested_inside(probes@, inside@, row, p as int),
            decreases probes@.len() - p,
        {
            let ghost was = bits(rows);
            if inside[p] {
                bitmap::insert(&mut rows, probes[p].row);
            }
            proof {
                assert forall|row: u32| #[trigger]
                    bits(rows).contains(row) <==> bits(self.interior).contains(row)
                        || tested_inside(probes@, inside@, row, p + 1) by {
                    assert(was.contains(row) <==> bits(self.interior).contains(row)
                        || tested_inside(probes@, inside@, row, p as int));
                    if tested_inside(probes@, inside@, row, p as int) {
                        let k = choose|k: int|
                            0 <= k < p && (#[trigger] probes@[k]).row == row && inside@[k];
                        assert(0 <= k < p + 1 && probes@[k].row == row);
                    }
                    if tested_inside(probes@, inside@, row, p + 1) {
                        let k = choose|k: int|
                            0 <= k < p + 1 && (#[trigger] probes@[k]).row == row && inside@[k];
                        if k < p {
                            assert(tested_inside(probes@, inside@, row, p as int));
                        }
                    }
                    if inside@[p as int] && probes@[p as int].row == row {
                        assert(0 <= p < p + 1 && probes@[p as int].row == row);
                    }
                }
            }
            p += 1;
        }
        RegionRows { rows, verdict: self.verdict }
    }
}

/// Whether probes hold a row.
pub open spec fn lists_row(probes: Seq<Probe>, row: u32) -> bool {
    exists|p: int| 0 <= p < probes.len() && (#[trigger] probes[p]).row == row
}

/// Whether one of the first `n` probes is of a row and tested inside.
pub open spec fn tested_inside(probes: Seq<Probe>, inside: Seq<bool>, row: u32, n: int) -> bool {
    exists|p: int| 0 <= p < n && (#[trigger] probes[p]).row == row && inside[p]
}

/// Distinct cells, sorted, ascend.
proof fn lemma_distinct_cells(given: Seq<BoundaryCell>, ordered: Seq<BoundaryCell>)
    requires
        sorted(ordered),
        ordered.len() == given.len(),
        ordered.to_multiset() == given.to_multiset(),
        forall|i: int, j: int|
            0 <= i < j < given.len() ==> (#[trigger] given[i]).cell != (#[trigger] given[j]).cell,
    ensures
        strictly_sorted(ordered),
{
    broadcast use vstd::seq_lib::group_to_multiset_ensures;

    assert(given.no_duplicates()) by {
        assert forall|i: int, j: int|
            0 <= i < given.len() && 0 <= j < given.len() && i != j implies given[i] != given[j] by {
            if i < j {
                assert(given[i].cell != given[j].cell);
            } else {
                assert(given[j].cell != given[i].cell);
            }
        }
    }
    given.lemma_multiset_has_no_duplicates();
    ordered.lemma_multiset_has_no_duplicates_conv();
    assert forall|i: int, j: int| 0 <= i < j < ordered.len() implies (
    #[trigger] ordered[i]).precedes(#[trigger] ordered[j]) && !ordered[j].precedes(ordered[i]) by {
        if ordered[i].cell == ordered[j].cell {
            assert(ordered.contains(ordered[i]) && ordered.contains(ordered[j]));
            assert(ordered.to_multiset().count(ordered[i]) > 0);
            assert(ordered.to_multiset().count(ordered[j]) > 0);
            assert(given.contains(ordered[i]) && given.contains(ordered[j]));
            let a = choose|a: int| 0 <= a < given.len() && given[a] == ordered[i];
            let b = choose|b: int| 0 <= b < given.len() && given[b] == ordered[j];
            assert(given[a].cell == given[b].cell);
            assert(a == b);
            assert(ordered[i] == ordered[j]);
        }
    }
}

/// The rows each boundary cell occupies in a segment.
fn cell_ranges(boundary: &Vec<BoundaryCell>, segment: &SegmentCodes) -> (ranges: Vec<(u32, u32)>)
    requires
        strictly_sorted(boundary@),
        segment.wf(),
    ensures
        ranges_of(ranges@, boundary@, *segment),
{
    let mut ranges: Vec<(u32, u32)> = Vec::new();
    let mut c: usize = 0;
    while c < boundary.len()
        invariant
            c <= boundary@.len(),
            strictly_sorted(boundary@),
            segment.wf(),
            ranges@.len() == c,
            forall|k: int|
                0 <= k < c ==> (#[trigger] ranges@[k]).0 <= ranges@[k].1 <= segment.rows(),
            forall|k: int, r: int|
                0 <= k < c ==> (#[trigger] in_tile(*segment, cell_tile(boundary@[k].cell), r)
                    <==> covers(ranges@[k], r)),
            forall|k: int, j: int|
                0 <= k < j < c ==> (#[trigger] ranges@[k]).0 <= (#[trigger] ranges@[j]).0,
            forall|k: int, r: int|
                0 <= k < c && 0 <= r < ranges@[k].0 ==> #[trigger] below_cell(
                    *segment,
                    boundary@[k].cell,
                    r,
                ),
        decreases boundary@.len() - c,
    {
        let cell: u32 = boundary[c].cell;
        let range = tile_range(segment, Tile { prefix: cell as u64, depth: 16 });
        proof {
            assert forall|k: int| 0 <= k < c implies (#[trigger] ranges@[k]).0 <= range.0 by {
                if range.0 < ranges@[k].0 {
                    assert(boundary@[k].precedes(boundary@[c as int]));
                    assert(below_cell(*segment, boundary@[k].cell, range.0 as int));
                    assert(tile_at(segment.codes@[range.0 as int], 16) >= cell as u64);
                }
            }
        }
        ranges.push(range);
        c += 1;
    }
    ranges
}

/// Whether a segment's row lies below a cell.
pub open spec fn below_cell(segment: SegmentCodes, cell: u32, r: int) -> bool {
    tile_at(segment.codes@[r], 16) < cell as u64
}

/// Ranges whose starts ascend, joined where they overlap or abut: the runs cover every range.
fn joined_runs(ranges: &Vec<(u32, u32)>) -> (runs: Vec<(u32, u32)>)
    requires
        forall|c: int, d: int|
            0 <= c < d < ranges@.len() ==> (#[trigger] ranges@[c]).0 <= (#[trigger] ranges@[d]).0,
    ensures
        forall|x: int| #[trigger] covered(ranges@, x) ==> covered(runs@, x),
        forall|k: int|
            0 <= k < runs@.len() ==> (#[trigger] runs@[k]).0 <= runs@[k].1 && exists|c: int|
                0 <= c < ranges@.len() && runs@[k].1 == (#[trigger] ranges@[c]).1,
{
    let mut runs: Vec<(u32, u32)> = Vec::new();
    let mut run: Option<(u32, u32)> = None;
    let mut c: usize = 0;
    while c < ranges.len()
        invariant
            c <= ranges@.len(),
            forall|k: int, d: int|
                0 <= k < d < ranges@.len() ==> (#[trigger] ranges@[k]).0 <= (
                #[trigger] ranges@[d]).0,
            run matches Some(current) ==> current.0 <= current.1 && (forall|d: int|
                c <= d < ranges@.len() ==> current.0 <= (#[trigger] ranges@[d]).0) && exists|d: int|
                0 <= d < ranges@.len() && current.1 == (#[trigger] ranges@[d]).1,
            forall|k: int|
                0 <= k < runs@.len() ==> (#[trigger] runs@[k]).0 <= runs@[k].1 && exists|d: int|
                    0 <= d < ranges@.len() && runs@[k].1 == (#[trigger] ranges@[d]).1,
            forall|k: int, x: int|
                0 <= k < c && #[trigger] covers(ranges@[k], x) ==> covered(runs@, x) || (
                run is Some && covers(run->0, x)),
        decreases ranges@.len() - c,
    {
        let (start, end): (u32, u32) = ranges[c];
        let ghost was = runs@;
        let ghost held = run;
        assert(ranges@[c as int].1 == end);
        if start < end {
            match run {
                Some((from, to)) => {
                    if start <= to {
                        run =
                        Some(
                            (
                                from,
                                if to < end {
                                    end
                                } else {
                                    to
                                },
                            ),
                        );
                    } else {
                        runs.push((from, to));
                        run = Some((start, end));
                    }
                },
                None => {
                    run = Some((start, end));
                },
            }
        }
        proof {
            assert forall|k: int, x: int|
                0 <= k < c + 1 && #[trigger] covers(ranges@[k], x) implies covered(runs@, x) || (
            run is Some && covers(run->0, x)) by {
                if k < c {
                    if covered(was, x) {
                        let j = choose|j: int| 0 <= j < was.len() && covers(#[trigger] was[j], x);
                        assert(runs@[j] == was[j]);
                    } else {
                        assert(covers(held->0, x));
                        if runs@.len() > was.len() {
                            assert(covers(runs@[was.len() as int], x));
                        }
                    }
                }
            }
        }
        c += 1;
    }
    let ghost was = runs@;
    if let Some(last) = run {
        runs.push(last);
    }
    proof {
        assert forall|x: int| #[trigger] covered(ranges@, x) implies covered(runs@, x) by {
            let k = choose|k: int| 0 <= k < ranges@.len() && covers(#[trigger] ranges@[k], x);
            assert(covers(ranges@[k], x));
            if covered(was, x) {
                let j = choose|j: int| 0 <= j < was.len() && covers(#[trigger] was[j], x);
                assert(runs@[j] == was[j]);
            } else {
                assert(covers(runs@[was.len() as int], x));
            }
        }
    }
    runs
}

/// A region's answer holds, of a boundary cell's rows, only ones that the mask admits: what is
/// outside the interior was probed, and every probe is visible.
pub proof fn law_a_region_reads_only_visible_rows(
    held: RegionDecomposition,
    mask: Set<u32>,
    segments: Seq<SegmentCodes>,
    probes: Seq<Probe>,
    inside: Seq<bool>,
    row: u32,
)
    requires
        inside.len() == probes.len(),
        forall|p: int|
            0 <= p < probes.len() ==> (#[trigger] probes[p]).segment < segments.len()
                && held.is_probe(
                probes[p],
                probes[p].segment,
                segments[probes[p].segment as int],
                mask,
            ),
        tested_inside(probes, inside, row, probes.len() as int),
    ensures
        mask.contains(row),
{
}

/// Whether a segment's row lies in a tile, by the stretch of codes that the tile is.
proof fn lemma_in_tile(segment: SegmentCodes, tile: Tile, local: int)
    requires
        tile.depth <= 16,
    ensures
        in_tile(segment, tile, local) <==> 0 <= local < segment.row_count && local
            < segment.codes@.len() && segment.codes@[local] as int / pow2(
            (32 - 2 * tile.depth) as nat,
        ) as int == tile.prefix as int,
{
    if 0 <= local < segment.codes@.len() {
        lemma_u64_shr_is_div(segment.codes@[local] as u64, (32 - 2 * tile.depth) as u64);
    }
}

/// The interior of a region holds a row exactly where the row's code lies in one of the tiles that
/// the descent found inside the shape or covered it with.
pub proof fn law_a_regions_interior_is_the_rows_of_its_tiles(
    held: RegionDecomposition,
    canonical: Seq<u8>,
    descent: Descent,
    segments: Seq<SegmentCodes>,
    row: u32,
)
    requires
        held.decomposes(canonical, descent, segments),
        descent.wf(),
    ensures
        bits(held.interior).contains(row) <==> exists|s: int, t: int|
            0 <= s < segments.len() && 0 <= t < descent.interior@.len() + descent.cover@.len() && {
                let tile = #[trigger] (descent.interior@ + descent.cover@)[t];
                let local = row - (#[trigger] segments[s]).row_base;
                &&& 0 <= local < segments[s].row_count
                &&& local < segments[s].codes@.len()
                &&& segments[s].codes@[local] as int / pow2((32 - 2 * tile.depth) as nat) as int
                    == tile.prefix as int
            },
{
    let tiles = descent.interior@ + descent.cover@;
    let inner = descent.interior@.len() as int;
    assert forall|s: int, t: int|
        0 <= s < segments.len() && 0 <= t < tiles.len() implies in_tile(
        #[trigger] segments[s],
        #[trigger] tiles[t],
        row - segments[s].row_base,
    ) == ({
        let local = row - segments[s].row_base;
        &&& 0 <= local < segments[s].row_count
        &&& local < segments[s].codes@.len()
        &&& segments[s].codes@[local] as int / pow2((32 - 2 * tiles[t].depth) as nat) as int
            == tiles[t].prefix as int
    }) by {
        if t < inner {
            assert(tiles[t] == descent.interior@[t]);
        } else {
            assert(tiles[t] == descent.cover@[t - inner]);
        }
        lemma_in_tile(segments[s], tiles[t], row - segments[s].row_base);
    }
    if in_tiles(segments, descent.interior@, row) {
        let (s, t) = choose|s: int, t: int|
            0 <= s < segments.len() && 0 <= t < descent.interior@.len() && in_tile(
                #[trigger] segments[s],
                #[trigger] descent.interior@[t],
                row - segments[s].row_base,
            );
        assert(tiles[t] == descent.interior@[t]);
        assert(in_tile(segments[s], tiles[t], row - segments[s].row_base));
    }
    if in_tiles(segments, descent.cover@, row) {
        let (s, t) = choose|s: int, t: int|
            0 <= s < segments.len() && 0 <= t < descent.cover@.len() && in_tile(
                #[trigger] segments[s],
                #[trigger] descent.cover@[t],
                row - segments[s].row_base,
            );
        assert(tiles[inner + t] == descent.cover@[t]);
        assert(in_tile(segments[s], tiles[inner + t], row - segments[s].row_base));
    }
    assert forall|s: int, t: int|
        0 <= s < segments.len() && 0 <= t < tiles.len() && in_tile(
            #[trigger] segments[s],
            #[trigger] tiles[t],
            row - segments[s].row_base,
        ) implies bits(held.interior).contains(row) by {
        if t < inner {
            assert(in_tile(segments[s], descent.interior@[t], row - segments[s].row_base));
        } else {
            assert(in_tile(segments[s], descent.cover@[t - inner], row - segments[s].row_base));
        }
    }
}

/// A region is exact where its descent ended of itself, and a cover at the depth where the budget
/// stopped it. Its boundary is the descent's, one cell for one, in the order of their codes.
pub proof fn law_a_region_is_exact_where_its_descent_ended(
    held: RegionDecomposition,
    canonical: Seq<u8>,
    descent: Descent,
    segments: Seq<SegmentCodes>,
)
    requires
        held.decomposes(canonical, descent, segments),
    ensures
        held.canonical@ == canonical,
        held.verdict == RegionVerdict::Exact <==> descent.cover_depth is None,
        forall|depth: u8|
            descent.cover_depth == Some(depth) <==> held.verdict == (RegionVerdict::Cover { depth }),
        forall|cell: BoundaryCell|
            held.boundary@.contains(cell) <==> #[trigger] descent.boundary@.contains(cell),
        held.boundary@.len() == descent.boundary@.len(),
        forall|i: int, j: int|
            0 <= i < j < held.boundary@.len() ==> (#[trigger] held.boundary@[i]).cell < (
            #[trigger] held.boundary@[j]).cell,
{
    broadcast use vstd::seq_lib::group_to_multiset_ensures;
    assert(held.boundary@.to_multiset().len() == held.boundary@.len());
    assert(descent.boundary@.to_multiset().len() == descent.boundary@.len());
    assert forall|cell: BoundaryCell|
        held.boundary@.contains(cell) <==> #[trigger] descent.boundary@.contains(cell) by {
        assert(held.boundary@.contains(cell) <==> held.boundary@.to_multiset().count(cell) > 0);
        assert(descent.boundary@.contains(cell) <==> descent.boundary@.to_multiset().count(cell)
            > 0);
    }
}

/// A region is tested at each visible row whose code is that of a boundary cell, in the row's own
/// segment, place and cell, and at no other row.
pub proof fn law_a_region_is_tested_at_the_visible_rows_of_its_boundary(
    held: RegionDecomposition,
    mask: Set<u32>,
    segments: Seq<SegmentCodes>,
    probes: Seq<Probe>,
    p: int,
    s: int,
    local: int,
    c: int,
)
    requires
        forall|q: int|
            0 <= q < probes.len() ==> (#[trigger] probes[q]).segment < segments.len()
                && held.is_probe(
                probes[q],
                probes[q].segment,
                segments[probes[q].segment as int],
                mask,
            ),
        forall|t: int, row: u32|
            0 <= t < segments.len() && #[trigger] probed(held.boundary@, segments[t], mask, row)
                ==> lists_row(probes, row),
        0 <= s < segments.len() ==> segments[s].wf(),
    ensures
        0 <= p < probes.len() ==> {
            let segment = segments[probes[p].segment as int];
            &&& probes[p].local < segment.row_count
            &&& probes[p].local < segment.codes@.len()
            &&& probes[p].row == segment.row_base + probes[p].local
            &&& mask.contains(probes[p].row)
            &&& probes[p].cell < held.boundary@.len()
            &&& held.boundary@[probes[p].cell as int].cell
                == segment.codes@[probes[p].local as int]
        },
        0 <= s < segments.len() && 0 <= local < segments[s].row_count && local
            < segments[s].codes@.len() && mask.contains((segments[s].row_base + local) as u32) && 0
            <= c < held.boundary@.len() && held.boundary@[c].cell == segments[s].codes@[local]
            ==> exists|q: int|
            0 <= q < probes.len() && (#[trigger] probes[q]).row == segments[s].row_base + local,
{
    if 0 <= s < segments.len() && 0 <= local < segments[s].row_count && local
        < segments[s].codes@.len() && mask.contains((segments[s].row_base + local) as u32) && 0 <= c
        < held.boundary@.len() && held.boundary@[c].cell == segments[s].codes@[local] {
        let row = (segments[s].row_base + local) as u32;
        assert(row - segments[s].row_base == local);
        assert(probed(held.boundary@, segments[s], mask, row));
    }
}

/// A row is among a region's rows exactly where it is of the interior, or was tested and found
/// inside.
pub proof fn law_a_regions_rows_are_its_interior_and_what_tested_inside(
    held: RegionDecomposition,
    probes: Seq<Probe>,
    inside: Seq<bool>,
    answer: RegionRows,
    row: u32,
)
    requires
        inside.len() == probes.len(),
        bits(answer.rows).contains(row) <==> bits(held.interior).contains(row) || tested_inside(
            probes,
            inside,
            row,
            probes.len() as int,
        ),
    ensures
        bits(held.interior).contains(row) ==> bits(answer.rows).contains(row),
        forall|p: int|
            0 <= p < probes.len() && (#[trigger] probes[p]).row == row && inside[p] ==> bits(
                answer.rows,
            ).contains(row),
        bits(answer.rows).contains(row) && !bits(held.interior).contains(row) ==> exists|p: int|
            0 <= p < probes.len() && (#[trigger] probes[p]).row == row && inside[p],
{
}

/// Of two verdicts the coarser is exact only where both are, and otherwise a cover at the lesser of
/// their depths.
pub proof fn law_the_coarser_verdict_is_the_lesser_depth(a: RegionVerdict, b: RegionVerdict)
    ensures
        a.coarser_of(b) == RegionVerdict::Exact <==> a == RegionVerdict::Exact && b
            == RegionVerdict::Exact,
        forall|depth: u8|
            a.coarser_of(b) == (RegionVerdict::Cover { depth }) <==> {
                &&& a == (RegionVerdict::Cover { depth }) || b == (RegionVerdict::Cover { depth })
                &&& a matches RegionVerdict::Cover { depth: x } ==> depth <= x
                &&& b matches RegionVerdict::Cover { depth: y } ==> depth <= y
            },
{
}

} // verus!
