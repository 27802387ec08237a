//! The occupied tiles of every depth, from one walk at the deepest.
//!
//! A view of one segment is counted. A view of several is estimated with one sketch per depth: a
//! tile can hold rows in several segments, and adding it to a sketch twice is adding it once.

use croaring::Bitmap;
use vstd::arithmetic::div_mod::lemma_div_denominator;
use vstd::arithmetic::power2::{lemma2_to64, lemma_pow2_adds, lemma_pow2_pos, lemma_pow2_strictly_increases, pow2};
use vstd::bits::{lemma_u64_shl_is_mul, lemma_u64_shr_is_div};
use vstd::prelude::*;

use crate::bitmap::bits;
use crate::occupancy::sketch::{
    estimate_of, law_a_sketch_is_a_function_of_the_tiles, law_recording_adds_the_tile,
    lemma_estimate_of_a_tile, precise, sketches, TileSketch, SKETCH_PRECISION,
};
use crate::occupancy::walk::{
    climbs, for_each_occupied_tile, lemma_tile_bound, tile_at, SegmentCodes,
};

verus! {

/// How many tiles a depth has.
pub open spec fn grid(depth: int) -> nat {
    pow2((2 * depth) as nat)
}

/// The tile `up` depths above that `tile` lies in.
pub open spec fn ancestor(tile: u64, up: int) -> u64 {
    tile >> ((2 * up) as u64)
}

/// The tiles `up` depths above that some tiles lie in.
pub open spec fn ancestors(tiles: Set<u64>, up: int) -> Set<u64> {
    Set::new(|a: u64| exists|t: u64| #[trigger] tiles.contains(t) && ancestor(t, up) == a)
}

/// The tiles of `depth` that hold a visible row of some segment.
pub open spec fn occupied_in(mask: Set<u32>, segments: Seq<SegmentCodes>, depth: u8) -> Set<u64> {
    Set::new(
        |t: u64|
            exists|k: int|
                0 <= k < segments.len() && (#[trigger] segments[k]).occupied(mask, depth).contains(
                    t,
                ),
    )
}

/// Every segment is well formed.
pub open spec fn segments_wf(segments: Seq<SegmentCodes>) -> bool {
    forall|k: int| 0 <= k < segments.len() ==> (#[trigger] segments[k]).wf()
}

/// A rung held to the grid.
pub open spec fn clamped(rung: u64, depth: int) -> int {
    if rung < grid(depth) {
        rung as int
    } else {
        grid(depth) as int
    }
}

/// The greatest rung at or above a depth.
pub open spec fn running(rungs: Seq<u64>, depth: int) -> int
    decreases depth + 1,
{
    if depth < 0 {
        0
    } else if running(rungs, depth - 1) > clamped(rungs[depth], depth) {
        running(rungs, depth - 1)
    } else {
        clamped(rungs[depth], depth)
    }
}

/// How many tiles of each depth are occupied.
#[derive(Clone, Copy, Debug, PartialEq, Eq)]
pub struct OccupancyLadder {
    pub counts: [u64; 17],
    /// Each depth's rung before the running maximum, held to the grid.
    pub raw: [u64; 17],
    pub depth: u8,
    /// Whether the rungs were counted rather than estimated.
    pub exact: bool,
}

impl OccupancyLadder {
    /// No rung is above the grid, and none is below the one above it: each is some raw rung at its
    /// depth or above, and no raw rung is above the depth's own.
    pub open spec fn wf(&self) -> bool {
        &&& self.depth <= 16
        &&& forall|d: int| 0 <= d <= self.depth ==> (#[trigger] self.counts@[d]) <= grid(d)
        &&& forall|a: int, b: int|
            0 <= a <= b <= self.depth ==> self.counts@[a] <= self.counts@[b]
        &&& forall|d: int|
            0 <= d <= self.depth ==> (#[trigger] self.raw@[d]) <= self.counts@[d]
        &&& forall|d: int|
            0 <= d <= self.depth ==> self.reached_by(#[trigger] self.counts@[d] as int, d)
    }

    /// Whether a raw rung at a depth or above is `count`.
    pub open spec fn reached_by(&self, count: int, depth: int) -> bool {
        exists|a: int| 0 <= a <= depth && (#[trigger] self.raw@[a]) == count
    }

    /// How many tiles of `depth` are occupied: `depth` is one this ladder was filled to.
    pub fn at(&self, depth: u8) -> (count: u64)
        requires
            depth <= self.depth <= 16,
        ensures
            count == self.counts@[depth as int],
    {
        self.counts[depth as usize]
    }

    /// The deepest depth this ladder answers for.
    pub fn depth(&self) -> (depth: u8)
        ensures
            depth == self.depth,
    {
        self.depth
    }

    /// Whether these rungs are counts.
    pub fn is_exact(&self) -> (yes: bool)
        ensures
            yes == self.exact,
    {
        self.exact
    }

    /// A depth's rung before the running maximum.
    pub fn raw_at(&self, depth: u8) -> (count: u64)
        requires
            depth <= 16,
        ensures
            count == self.raw@[depth as int],
    {
        self.raw[depth as usize]
    }
}

/// Of any ladder: a rung never falls as the depth grows and never passes the grid, and it is the
/// greatest of the raw rungs up to its depth.
pub proof fn law_a_ladder_holds_running_maxima(ladder: OccupancyLadder, d: u8, depth: u8)
    requires
        ladder.wf(),
        d <= depth <= ladder.depth,
    ensures
        ladder.counts@[d as int] <= ladder.counts@[depth as int] <= grid(depth as int),
        ladder.raw@[d as int] <= ladder.counts@[depth as int],
        exists|a: u8|
            a <= depth && #[trigger] ladder.raw@[a as int] == ladder.counts@[depth as int],
{
    assert(ladder.raw@[d as int] <= ladder.counts@[d as int]);
    assert(ladder.reached_by(ladder.counts@[depth as int] as int, depth as int));
    let a = choose|a: int|
        0 <= a <= depth && (#[trigger] ladder.raw@[a]) == ladder.counts@[depth as int] as int;
    assert(ladder.raw@[(a as u8) as int] == ladder.counts@[depth as int]);
}

proof fn lemma_running(rungs: Seq<u64>, depth: int)
    requires
        0 <= depth <= 16,
        rungs.len() == 17,
    ensures
        0 <= clamped(rungs[depth], depth) <= running(rungs, depth) <= grid(depth),
        0 <= running(rungs, depth - 1) <= running(rungs, depth),
        grid(depth) <= 0x1_0000_0000,
    decreases depth,
{
    lemma2_to64();
    if depth > 0 {
        lemma_running(rungs, depth - 1);
        lemma_pow2_strictly_increases((2 * depth - 2) as nat, (2 * depth) as nat);
    } else {
        assert(running(rungs, -1) == 0);
    }
    if depth < 16 {
        lemma_pow2_strictly_increases((2 * depth) as nat, 32);
    }
}

/// The grid's ceiling and the running maximum, applied to the rungs of either route.
pub fn finish_ladder(raw_rungs: [u64; 17], depth: u8, exact: bool) -> (ladder: OccupancyLadder)
    requires
        depth <= 16,
    ensures
        ladder.wf(),
        ladder.depth == depth,
        ladder.exact == exact,
        forall|d: int|
            0 <= d <= depth ==> (#[trigger] ladder.raw@[d]) == clamped(raw_rungs@[d], d),
        forall|d: int| 0 <= d <= depth ==> (#[trigger] ladder.counts@[d]) == running(raw_rungs@, d),
        forall|d: int| depth < d < 17 ==> (#[trigger] ladder.raw@[d]) == 0,
        forall|d: int| depth < d < 17 ==> (#[trigger] ladder.counts@[d]) == 0,
{
    let mut counts: [u64; 17] = [0u64;17];
    let mut raw: [u64; 17] = [0u64;17];
    let mut highest: u64 = 0;
    let mut d: usize = 0;
    while d <= depth as usize
        invariant
            depth <= 16,
            d <= depth + 1,
            highest == running(raw_rungs@, d - 1),
            forall|k: int| 0 <= k < d ==> (#[trigger] raw@[k]) == clamped(raw_rungs@[k], k),
            forall|k: int| 0 <= k < d ==> (#[trigger] counts@[k]) == running(raw_rungs@, k),
            forall|k: int| d <= k < 17 ==> (#[trigger] raw@[k]) == 0,
            forall|k: int| d <= k < 17 ==> (#[trigger] counts@[k]) == 0,
        decreases depth + 1 - d,
    {
        let shift: u64 = 2 * d as u64;
        proof {
            lemma_running(raw_rungs@, d as int);
            lemma_u64_shl_is_mul(1, shift);
        }
        let ceiling: u64 = 1u64 << shift;
        let rung: u64 = if raw_rungs[d] < ceiling {
            raw_rungs[d]
        } else {
            ceiling
        };
        raw[d] = rung;
        if rung > highest {
            highest = rung;
        }
        counts[d] = highest;
        d += 1;
    }
    let ladder = OccupancyLadder { counts, raw, depth, exact };
    proof {
        assert forall|a: int| 0 <= a <= depth implies (#[trigger] counts@[a]) <= grid(a) by {
            lemma_running(raw_rungs@, a);
        }
        assert forall|a: int, b: int| 0 <= a <= b <= depth implies counts@[a] <= counts@[b] by {
            lemma_running_climbs(raw_rungs@, a, b);
        }
        assert forall|a: int| 0 <= a <= depth implies (#[trigger] raw@[a]) <= counts@[a] by {
            lemma_running(raw_rungs@, a);
        }
        assert forall|a: int| 0 <= a <= depth implies ladder.reached_by(
            #[trigger] ladder.counts@[a] as int,
            a,
        ) by {
            let at = lemma_running_is_the_greatest(raw_rungs@, a);
            assert(ladder.raw@[at] == ladder.counts@[a]);
        }
    }
    ladder
}

proof fn lemma_running_climbs(rungs: Seq<u64>, a: int, b: int)
    requires
        0 <= a <= b <= 16,
        rungs.len() == 17,
    ensures
        running(rungs, a) <= running(rungs, b),
    decreases b - a,
{
    if a < b {
        lemma_running(rungs, b);
        lemma_running_climbs(rungs, a, b - 1);
    }
}

/// The ancestor of a code's tile is the code's tile at the shallower depth.
proof fn lemma_ancestor_of_tile(code: u32, depth: u8, d: u8)
    requires
        d <= depth <= 16,
    ensures
        ancestor(tile_at(code, depth), depth - d) == tile_at(code, d),
{
    lemma_shift_twice(code as u64, (32 - 2 * depth) as u64, (2 * (depth - d)) as u64);
}

/// Two shifts are one.
proof fn lemma_shift_twice(c: u64, x: u64, y: u64)
    requires
        x + y < 64,
    ensures
        (c >> x) >> y == c >> ((x + y) as u64),
{
    let s = (x + y) as u64;
    lemma_u64_shr_is_div(c, x);
    lemma_u64_shr_is_div(c >> x, y);
    lemma_u64_shr_is_div(c, s);
    lemma_pow2_adds(x as nat, y as nat);
    lemma_pow2_pos(x as nat);
    lemma_pow2_pos(y as nat);
    lemma_div_denominator(c as int, pow2(x as nat) as int, pow2(y as nat) as int);
}

/// Tiles with one ancestor have one ancestor further up.
proof fn lemma_ancestors_nest(a: u64, b: u64, near: int, far: int)
    requires
        0 <= near <= far <= 16,
        ancestor(a, near) == ancestor(b, near),
    ensures
        ancestor(a, far) == ancestor(b, far),
{
    let n = (2 * near) as u64;
    let m = (2 * (far - near)) as u64;
    lemma_shift_twice(a, n, m);
    lemma_shift_twice(b, n, m);
}

proof fn lemma_ancestors_climb(a: u64, b: u64, up: int)
    requires
        0 <= up <= 16,
        a <= b,
    ensures
        ancestor(a, up) <= ancestor(b, up),
{
    let n = (2 * up) as u64;
    assert(a >> n <= b >> n) by (bit_vector)
        requires
            a <= b,
    ;
}

/// One walk answers for every depth above it: the ancestors of the tiles occupied at a depth are
/// the tiles occupied at the shallower one.
pub proof fn law_one_walk_fills_every_depth(
    mask: Set<u32>,
    segments: Seq<SegmentCodes>,
    depth: u8,
    d: u8,
)
    requires
        d <= depth <= 16,
    ensures
        ancestors(occupied_in(mask, segments, depth), depth - d) == occupied_in(mask, segments, d),
{
    let deep = occupied_in(mask, segments, depth);
    let up = ancestors(deep, depth - d);
    let shallow = occupied_in(mask, segments, d);
    assert forall|a: u64| up.contains(a) == shallow.contains(a) by {
        if up.contains(a) {
            let t = choose|t: u64| #[trigger] deep.contains(t) && ancestor(t, depth - d) == a;
            let k = choose|k: int|
                0 <= k < segments.len() && (#[trigger] segments[k]).occupied(mask, depth).contains(
                    t,
                );
            let s = segments[k];
            let r = choose|r: int|
                0 <= r < s.rows() && #[trigger] s.sees(mask, r) && tile_at(s.codes@[r], depth) == t;
            lemma_ancestor_of_tile(s.codes@[r], depth, d);
            assert(s.sees(mask, r));
            assert(segments[k].occupied(mask, d).contains(a));
        }
        if shallow.contains(a) {
            let k = choose|k: int|
                0 <= k < segments.len() && (#[trigger] segments[k]).occupied(mask, d).contains(a);
            let s = segments[k];
            let r = choose|r: int|
                0 <= r < s.rows() && #[trigger] s.sees(mask, r) && tile_at(s.codes@[r], d) == a;
            lemma_ancestor_of_tile(s.codes@[r], depth, d);
            assert(s.sees(mask, r));
            let t = tile_at(s.codes@[r], depth);
            assert(segments[k].occupied(mask, depth).contains(t));
            assert(deep.contains(t));
        }
    }
    assert(up =~= shallow);
}

proof fn lemma_bounded_set(s: Set<u64>, n: nat)
    requires
        forall|x: u64| #[trigger] s.contains(x) ==> x < n,
    ensures
        s.finite(),
        s.len() <= n,
    decreases n,
{
    if n == 0 {
        assert(s =~= Set::empty());
    } else {
        let top = (n - 1) as u64;
        let rest = s.remove(top);
        assert forall|x: u64| #[trigger] rest.contains(x) implies x < n - 1 by {
            assert(s.contains(x));
        }
        lemma_bounded_set(rest, (n - 1) as nat);
        if s.contains(top) {
            assert(s =~= rest.insert(top));
        } else {
            assert(s =~= rest);
        }
    }
}

/// No more tiles are occupied than the depth has.
pub proof fn law_occupied_tiles_are_within_the_grid(
    mask: Set<u32>,
    segments: Seq<SegmentCodes>,
    depth: u8,
)
    requires
        depth <= 16,
    ensures
        occupied_in(mask, segments, depth).finite(),
        occupied_in(mask, segments, depth).len() <= grid(depth as int),
{
    let s = occupied_in(mask, segments, depth);
    let shift = (2 * depth) as u64;
    lemma2_to64();
    if depth < 16 {
        lemma_pow2_strictly_increases((2 * depth) as nat, 32);
    }
    lemma_u64_shl_is_mul(1, shift);
    assert forall|x: u64| #[trigger] s.contains(x) implies x < grid(depth as int) by {
        let k = choose|k: int|
            0 <= k < segments.len() && (#[trigger] segments[k]).occupied(mask, depth).contains(x);
        let seg = segments[k];
        let r = choose|r: int|
            0 <= r < seg.rows() && #[trigger] seg.sees(mask, r) && tile_at(seg.codes@[r], depth)
                == x;
        lemma_tile_bound(seg.codes@[r], depth);
    }
    lemma_bounded_set(s, grid(depth as int));
}

proof fn lemma_fewer_ancestors(tiles: Set<u64>, up: int)
    requires
        tiles.finite(),
    ensures
        ancestors(tiles, up).finite(),
        ancestors(tiles, up).len() <= tiles.len(),
    decreases tiles.len(),
{
    if tiles.len() == 0 {
        assert(tiles =~= Set::empty());
        assert(ancestors(tiles, up) =~= Set::empty());
    } else {
        let t = tiles.choose();
        assert(tiles.contains(t));
        let rest = tiles.remove(t);
        lemma_fewer_ancestors(rest, up);
        assert(ancestors(tiles, up) =~= ancestors(rest, up).insert(ancestor(t, up))) by {
            assert forall|a: u64|
                ancestors(tiles, up).contains(a) == ancestors(rest, up).insert(
                    ancestor(t, up),
                ).contains(a) by {
                if ancestors(tiles, up).contains(a) {
                    let x = choose|x: u64| #[trigger] tiles.contains(x) && ancestor(x, up) == a;
                    if x != t {
                        assert(rest.contains(x));
                    }
                }
                if ancestors(rest, up).contains(a) {
                    let x = choose|x: u64| #[trigger] rest.contains(x) && ancestor(x, up) == a;
                    assert(tiles.contains(x));
                }
            }
        }
    }
}

/// At least as many tiles are occupied at a deeper depth.
pub proof fn law_occupied_tiles_grow_with_depth(
    mask: Set<u32>,
    segments: Seq<SegmentCodes>,
    d: u8,
    depth: u8,
)
    requires
        d <= depth <= 16,
    ensures
        occupied_in(mask, segments, d).len() <= occupied_in(mask, segments, depth).len(),
{
    law_occupied_tiles_are_within_the_grid(mask, segments, depth);
    law_one_walk_fills_every_depth(mask, segments, depth, d);
    lemma_fewer_ancestors(occupied_in(mask, segments, depth), depth - d);
}

/// The ancestors of the first `n` tiles of a list.
spec fn ancestors_of(tiles: Seq<u64>, n: int, up: int) -> Set<u64> {
    ancestors(tiles.take(n).to_set(), up)
}

/// One more tile of a climbing list adds its ancestor, which is new exactly where it is not the
/// ancestor of the tile before it.
proof fn lemma_count_step(tiles: Seq<u64>, n: int, up: int)
    requires
        climbs(tiles),
        0 <= n < tiles.len(),
        0 <= up <= 16,
    ensures
        ancestors_of(tiles, n, up).finite(),
        ancestors_of(tiles, n + 1, up) == ancestors_of(tiles, n, up).insert(ancestor(tiles[n], up)),
        n > 0 ==> ancestors_of(tiles, n, up).contains(ancestor(tiles[n - 1], up)),
        n == 0 ==> ancestors_of(tiles, n, up) == Set::<u64>::empty(),
        n > 0 && ancestor(tiles[n], up) != ancestor(tiles[n - 1], up) ==> !ancestors_of(
            tiles,
            n,
            up,
        ).contains(ancestor(tiles[n], up)),
{
    broadcast use vstd::seq_lib::seq_to_set_is_finite;

    let before = tiles.take(n);
    let after = tiles.take(n + 1);
    let x = ancestor(tiles[n], up);
    lemma_fewer_ancestors(before.to_set(), up);
    assert forall|a: u64|
        ancestors(after.to_set(), up).contains(a) == ancestors(before.to_set(), up).insert(
            x,
        ).contains(a) by {
        if ancestors(after.to_set(), up).contains(a) {
            let t = choose|t: u64| #[trigger] after.to_set().contains(t) && ancestor(t, up) == a;
            assert(after.contains(t));
            let i = choose|i: int| 0 <= i < after.len() && after[i] == t;
            if i < n {
                assert(before[i] == t);
                assert(before.to_set().contains(t));
            }
        }
        if ancestors(before.to_set(), up).contains(a) {
            let t = choose|t: u64| #[trigger] before.to_set().contains(t) && ancestor(t, up) == a;
            assert(before.contains(t));
            let i = choose|i: int| 0 <= i < before.len() && before[i] == t;
            assert(after[i] == t);
            assert(after.to_set().contains(t));
        }
        if a == x {
            assert(after[n] == tiles[n]);
            assert(after.to_set().contains(tiles[n]));
        }
    }
    assert(ancestors_of(tiles, n + 1, up) =~= ancestors_of(tiles, n, up).insert(x));
    if n == 0 {
        assert(before.to_set() =~= Set::empty());
        assert(ancestors_of(tiles, n, up) =~= Set::empty());
    } else {
        assert(before[n - 1] == tiles[n - 1]);
        assert(before.to_set().contains(tiles[n - 1]));
        lemma_ancestors_climb(tiles[n - 1], tiles[n], up);
        if x != ancestor(tiles[n - 1], up) && ancestors_of(tiles, n, up).contains(x) {
            let t = choose|t: u64| #[trigger] before.to_set().contains(t) && ancestor(t, up) == x;
            assert(before.contains(t));
            let i = choose|i: int| 0 <= i < before.len() && before[i] == t;
            if i < n - 1 {
                assert(tiles[i] < tiles[n - 1]);
            }
            lemma_ancestors_climb(t, tiles[n - 1], up);
        }
    }
}

/// What the counters hold once the first `n` tiles were counted at the depths from `low` on: the
/// depths above hold what one tile fewer gave.
spec fn counted_to(
    tiles: Seq<u64>,
    counted: Seq<u64>,
    last: Seq<u64>,
    depth: int,
    d: int,
    n: int,
) -> bool {
    &&& counted[d] == ancestors_of(tiles, n, depth - d).len()
    &&& n > 0 ==> last[d] == ancestor(tiles[n - 1], depth - d)
    &&& n == 0 ==> last[d] == u64::MAX
}

/// How many tiles of each depth are occupied, counted from one walk of one segment.
pub fn occupied_tiles_ladder_exact(
    mask: &Bitmap,
    segments: &Vec<SegmentCodes>,
    depth: u8,
) -> (ladder: OccupancyLadder)
    requires
        segments@.len() == 1,
        segments_wf(segments@),
        depth <= 16,
    ensures
        ladder.wf(),
        ladder.depth == depth,
        ladder.exact,
        forall|d: u8|
            d <= depth ==> ladder.counts@[d as int] == (#[trigger] occupied_in(
                bits(*mask),
                segments@,
                d,
            )).len(),
        forall|d: u8|
            d <= depth ==> ladder.raw@[d as int] == (#[trigger] occupied_in(
                bits(*mask),
                segments@,
                d,
            )).len(),
        forall|d: int|
            depth < d < 17 ==> (#[trigger] ladder.counts@[d]) == 0 && ladder.raw@[d] == 0,
{
    assert(segments@[0].wf());
    let tiles = for_each_occupied_tile(mask, &segments[0], depth);
    let ghost seen = bits(*mask);
    proof {
        let one = occupied_in(seen, segments@, depth);
        assert forall|t: u64| one.contains(t) == segments@[0].occupied(seen, depth).contains(
            t,
        ) by {
            if segments@[0].occupied(seen, depth).contains(t) {
                assert(0 <= 0 < segments@.len());
            }
        }
        assert(tiles@.to_set() =~= one);
        assert forall|i: int| 0 <= i < tiles@.len() implies (#[trigger] tiles@[i])
            < 0x1_0000_0000 by {
            assert(tiles@.contains(tiles@[i]));
            assert(tiles@.to_set().contains(tiles@[i]));
            let seg = segments@[0];
            let r = choose|r: int|
                0 <= r < seg.rows() && #[trigger] seg.sees(seen, r) && tile_at(seg.codes@[r], depth)
                    == tiles@[i];
            lemma_tile_bound(seg.codes@[r], depth);
        }
    }
    let mut counted: [u64; 17] = [0u64;17];
    let mut last: [u64; 17] = [u64::MAX;17];
    let mut n: usize = 0;
    let total: usize = tiles.len();
    proof {
        broadcast use vstd::seq_lib::seq_to_set_is_finite;

        assert forall|d: int| 0 <= d <= depth implies #[trigger] counted_to(
            tiles@,
            counted@,
            last@,
            depth as int,
            d,
            0,
        ) by {
            assert(tiles@.take(0).to_set() =~= Set::empty());
            assert(ancestors_of(tiles@, 0, depth - d) =~= Set::empty());
        }
    }
    while n < total
        invariant
            n <= total == tiles@.len(),
            depth <= 16,
            climbs(tiles@),
            forall|i: int| 0 <= i < tiles@.len() ==> (#[trigger] tiles@[i]) < 0x1_0000_0000,
            forall|d: int|
                0 <= d <= depth ==> #[trigger] counted_to(
                    tiles@,
                    counted@,
                    last@,
                    depth as int,
                    d,
                    n as int,
                ),
        decreases tiles@.len() - n,
    {
        let tile: u64 = tiles[n];
        let ghost old_counted = counted@;
        let ghost old_last = last@;
        let mut d: u8 = depth;
        let mut more: bool = true;
        while more
            invariant
                n < total == tiles@.len(),
                d <= depth <= 16,
                climbs(tiles@),
                tile == tiles@[n as int],
                forall|i: int| 0 <= i < tiles@.len() ==> (#[trigger] tiles@[i]) < 0x1_0000_0000,
                forall|k: int|
                    0 <= k <= depth ==> #[trigger] counted_to(
                        tiles@,
                        old_counted,
                        old_last,
                        depth as int,
                        k,
                        n as int,
                    ),
                more ==> forall|k: int| 0 <= k <= d ==> (#[trigger] counted@[k]) == old_counted[k],
                more ==> forall|k: int| 0 <= k <= d ==> (#[trigger] last@[k]) == old_last[k],
                more ==> forall|k: int|
                    d < k <= depth ==> #[trigger] counted_to(
                        tiles@,
                        counted@,
                        last@,
                        depth as int,
                        k,
                        n + 1,
                    ),
                !more ==> forall|k: int|
                    0 <= k <= depth ==> #[trigger] counted_to(
                        tiles@,
                        counted@,
                        last@,
                        depth as int,
                        k,
                        n + 1,
                    ),
            decreases (if more { 1 + d as int } else { 0int }),
        {
            let shift: u64 = 2 * (depth - d) as u64;
            let up: u64 = tile >> shift;
            let ghost height = depth - d;
            proof {
                assert(counted_to(tiles@, old_counted, old_last, depth as int, d as int, n as int));
                assert(counted@[d as int] == old_counted[d as int]);
                lemma_count_step(tiles@, n as int, height);
                lemma_fewer_than_rows(tiles@, n as int, height);
                assert(up != u64::MAX) by (bit_vector)
                    requires
                        up == tile >> shift,
                        tile < 0x1_0000_0000u64,
                ;
            }
            if up == last[d as usize] {
                proof {
                    assert forall|k: int| 0 <= k <= depth implies #[trigger] counted_to(
                        tiles@,
                        counted@,
                        last@,
                        depth as int,
                        k,
                        n + 1,
                    ) by {
                        if k <= d {
                            assert(counted_to(
                                tiles@,
                                old_counted,
                                old_last,
                                depth as int,
                                k,
                                n as int,
                            ));
                            assert(counted@[k] == old_counted[k]);
                            lemma_ancestors_nest(tile, tiles@[n - 1], height, depth - k);
                            lemma_count_step(tiles@, n as int, depth - k);
                            assert(ancestors_of(tiles@, n + 1, depth - k) =~= ancestors_of(
                                tiles@,
                                n as int,
                                depth - k,
                            ));
                        }
                    }
                }
                more = false;
            } else {
                let ghost mid_counted = counted@;
                let ghost mid_last = last@;
                last[d as usize] = up;
                counted[d as usize] = counted[d as usize] + 1;
                proof {
                    assert(counted_to(tiles@, counted@, last@, depth as int, d as int, n + 1));
                    assert forall|k: int| d < k <= depth implies #[trigger] counted_to(
                        tiles@,
                        counted@,
                        last@,
                        depth as int,
                        k,
                        n + 1,
                    ) by {
                        assert(counted_to(
                            tiles@,
                            mid_counted,
                            mid_last,
                            depth as int,
                            k,
                            n + 1,
                        ));
                    }
                }
                if d == 0 {
                    more = false;
                } else {
                    d = d - 1;
                }
            }
        }
        n += 1;
    }
    let ladder = finish_ladder(counted, depth, true);
    proof {
        assert(tiles@.take(n as int) =~= tiles@);
        assert forall|d: u8| d <= depth implies counted@[d as int] == (#[trigger] occupied_in(
            seen,
            segments@,
            d,
        )).len() by {
            assert(counted_to(tiles@, counted@, last@, depth as int, d as int, n as int));
            law_one_walk_fills_every_depth(seen, segments@, depth, d);
        }
        assert forall|d: u8| d <= depth implies ladder.counts@[d as int] == (
        #[trigger] occupied_in(seen, segments@, d)).len() && ladder.raw@[d as int]
            == occupied_in(seen, segments@, d).len() by {
            law_occupied_tiles_are_within_the_grid(seen, segments@, d);
            lemma_counts_do_not_bind(seen, segments@, counted@, depth, d);
        }
    }
    ladder
}

/// Ancestors of `n` tiles are at most `n`.
proof fn lemma_fewer_than_rows(tiles: Seq<u64>, n: int, up: int)
    requires
        0 <= n < tiles.len(),
        tiles.len() <= u64::MAX,
    ensures
        ancestors_of(tiles, n, up).len() < u64::MAX,
{
    broadcast use vstd::seq_lib::seq_to_set_is_finite;

    tiles.take(n).lemma_cardinality_of_set();
    lemma_fewer_ancestors(tiles.take(n).to_set(), up);
}

proof fn lemma_counts_do_not_bind(
    mask: Set<u32>,
    segments: Seq<SegmentCodes>,
    counted: Seq<u64>,
    depth: u8,
    d: u8,
)
    requires
        d <= depth <= 16,
        counted.len() == 17,
        forall|d: u8|
            d <= depth ==> counted[d as int] == (#[trigger] occupied_in(mask, segments, d)).len(),
    ensures
        clamped(counted[d as int], d as int) == occupied_in(mask, segments, d).len(),
        running(counted, d as int) == occupied_in(mask, segments, d).len(),
    decreases d,
{
    law_occupied_tiles_are_within_the_grid(mask, segments, d);
    assert(counted[d as int] == occupied_in(mask, segments, d).len());
    if d > 0 {
        let e = (d - 1) as u8;
        lemma_counts_do_not_bind(mask, segments, counted, depth, e);
        law_occupied_tiles_grow_with_depth(mask, segments, e, d);
    } else {
        assert(running(counted, -1) == 0);
    }
}

/// The sketch of some tiles: the one register array that is.
pub open spec fn sketch_of(tiles: Set<u64>, precision: u32) -> Seq<u8> {
    choose|registers: Seq<u8>| sketches(registers, tiles, precision)
}

/// What the sketch route estimates at each depth.
pub open spec fn estimated_rungs(
    mask: Set<u32>,
    segments: Seq<SegmentCodes>,
    precision: u32,
) -> Seq<u64> {
    Seq::new(
        17,
        |d: int|
            estimate_of(
                sketch_of(occupied_in(mask, segments, d as u8), precision),
                precision,
            ) as u64,
    )
}

/// One more tile, one more ancestor.
proof fn lemma_ancestors_insert(tiles: Set<u64>, tile: u64, up: int)
    ensures
        ancestors(tiles.insert(tile), up) == ancestors(tiles, up).insert(ancestor(tile, up)),
{
    let a = ancestors(tiles.insert(tile), up);
    let b = ancestors(tiles, up).insert(ancestor(tile, up));
    assert forall|x: u64| a.contains(x) == b.contains(x) by {
        if a.contains(x) {
            let t = choose|t: u64| #[trigger]
                tiles.insert(tile).contains(t) && ancestor(t, up) == x;
            if t != tile {
                assert(tiles.contains(t));
            }
        }
        if ancestors(tiles, up).contains(x) {
            let t = choose|t: u64| #[trigger] tiles.contains(t) && ancestor(t, up) == x;
            assert(tiles.insert(tile).contains(t));
        }
        if x == ancestor(tile, up) {
            assert(tiles.insert(tile).contains(tile));
        }
    }
    assert(a =~= b);
}

/// What one depth's sketch and its last-seen ancestor hold once the tiles of `seen` were walked at
/// the deepest depth.
spec fn sketched_to(
    plane: TileSketch,
    last: u64,
    seen: Set<u64>,
    depth: int,
    d: int,
    precision: u32,
) -> bool {
    &&& plane.wf()
    &&& plane.precision == precision
    &&& sketches(plane.registers@, ancestors(seen, depth - d), precision)
    &&& last == u64::MAX || ancestors(seen, depth - d).contains(last)
}

/// Record one tile and its ancestors, deepest first, stopping at the first ancestor that was the
/// last one seen at its depth.
fn descend(
    planes: &mut Vec<TileSketch>,
    last: &mut Vec<u64>,
    tile: u64,
    depth: u8,
    precision: u32,
    seen: Ghost<Set<u64>>,
)
    requires
        depth <= 16,
        precise(precision),
        tile < 0x1_0000_0000,
        old(planes)@.len() == depth + 1,
        old(last)@.len() == depth + 1,
        forall|d: int|
            0 <= d <= depth ==> sketched_to(
                #[trigger] old(planes)@[d],
                old(last)@[d],
                seen@,
                depth as int,
                d,
                precision,
            ),
    ensures
        final(planes)@.len() == depth + 1,
        final(last)@.len() == depth + 1,
        forall|d: int|
            0 <= d <= depth ==> sketched_to(
                #[trigger] final(planes)@[d],
                final(last)@[d],
                seen@.insert(tile),
                depth as int,
                d,
                precision,
            ),
{
    let ghost before = planes@;
    let ghost before_last = last@;
    let ghost more_seen = seen@.insert(tile);
    let mut d: u8 = depth;
    let mut more: bool = true;
    while more
        invariant
            d <= depth <= 16,
            precise(precision),
            tile < 0x1_0000_0000,
            before.len() == depth + 1,
            before_last.len() == depth + 1,
            planes@.len() == depth + 1,
            last@.len() == depth + 1,
            more_seen == seen@.insert(tile),
            forall|k: int|
                0 <= k <= depth ==> sketched_to(
                    #[trigger] before[k],
                    before_last[k],
                    seen@,
                    depth as int,
                    k,
                    precision,
                ),
            more ==> forall|k: int| 0 <= k <= d ==> (#[trigger] planes@[k]) == before[k],
            more ==> forall|k: int| 0 <= k <= d ==> (#[trigger] last@[k]) == before_last[k],
            more ==> forall|k: int|
                d < k <= depth ==> sketched_to(
                    #[trigger] planes@[k],
                    last@[k],
                    more_seen,
                    depth as int,
                    k,
                    precision,
                ),
            !more ==> forall|k: int|
                0 <= k <= depth ==> sketched_to(
                    #[trigger] planes@[k],
                    last@[k],
                    more_seen,
                    depth as int,
                    k,
                    precision,
                ),
        decreases (if more { 1 + d as int } else { 0int }),
    {
        let at: usize = d as usize;
        let shift: u64 = 2 * (depth - d) as u64;
        let up: u64 = tile >> shift;
        let ghost height = depth - d;
        proof {
            assert(planes@[d as int] == before[d as int]);
            assert(last@[d as int] == before_last[d as int]);
            lemma_ancestors_insert(seen@, tile, height);
            assert(up != u64::MAX) by (bit_vector)
                requires
                    up == tile >> shift,
                    tile < 0x1_0000_0000u64,
            ;
        }
        if up == last[at] {
            proof {
                assert(ancestors(seen@, height).contains(up));
                let twin = choose|t: u64| #[trigger]
                    seen@.contains(t) && ancestor(t, height) == up;
                assert forall|k: int| 0 <= k <= depth implies sketched_to(
                    #[trigger] planes@[k],
                    last@[k],
                    more_seen,
                    depth as int,
                    k,
                    precision,
                ) by {
                    if k <= d {
                        assert(planes@[k] == before[k]);
                        assert(last@[k] == before_last[k]);
                        lemma_ancestors_insert(seen@, tile, depth - k);
                        lemma_ancestors_nest(tile, twin, height, depth - k);
                        assert(seen@.contains(twin));
                        assert(ancestors(seen@, depth - k).contains(ancestor(tile, depth - k)));
                        assert(ancestors(more_seen, depth - k) =~= ancestors(seen@, depth - k));
                    }
                }
            }
            more = false;
        } else {
            let ghost mid = planes@;
            let ghost mid_last = last@;
            last.set(at, up);
            planes[at].add(up);
            proof {
                assert(sketched_to(
                    planes@[d as int],
                    last@[d as int],
                    more_seen,
                    depth as int,
                    d as int,
                    precision,
                ));
                assert forall|k: int| d < k <= depth implies sketched_to(
                    #[trigger] planes@[k],
                    last@[k],
                    more_seen,
                    depth as int,
                    k,
                    precision,
                ) by {
                    assert(planes@[k] == mid[k]);
                }
            }
            if d == 0 {
                more = false;
            } else {
                d = d - 1;
            }
        }
    }
}

/// The tiles of the segments before `k`, and the first `n` tiles of a list.
spec fn walked(mask: Set<u32>, segments: Seq<SegmentCodes>, depth: u8, k: int, tiles: Seq<u64>, n: int) -> Set<u64> {
    occupied_in(mask, segments.take(k), depth).union(tiles.take(n).to_set())
}

proof fn lemma_walked_step(
    mask: Set<u32>,
    segments: Seq<SegmentCodes>,
    depth: u8,
    k: int,
    tiles: Seq<u64>,
    n: int,
)
    requires
        0 <= n < tiles.len(),
    ensures
        walked(mask, segments, depth, k, tiles, n + 1) == walked(
            mask,
            segments,
            depth,
            k,
            tiles,
            n,
        ).insert(tiles[n]),
{
    let a = tiles.take(n + 1);
    let b = tiles.take(n);
    assert forall|t: u64| a.to_set().contains(t) == b.to_set().insert(tiles[n]).contains(t) by {
        if a.contains(t) {
            let i = choose|i: int| 0 <= i < a.len() && a[i] == t;
            if i < n {
                assert(b[i] == t);
            }
        }
        if b.contains(t) {
            let i = choose|i: int| 0 <= i < b.len() && b[i] == t;
            assert(a[i] == t);
        }
        assert(a[n] == tiles[n]);
    }
    assert(walked(mask, segments, depth, k, tiles, n + 1) =~= walked(
        mask,
        segments,
        depth,
        k,
        tiles,
        n,
    ).insert(tiles[n]));
}

proof fn lemma_walked_segment(
    mask: Set<u32>,
    segments: Seq<SegmentCodes>,
    depth: u8,
    k: int,
    tiles: Seq<u64>,
)
    requires
        0 <= k < segments.len(),
        tiles.to_set() == segments[k].occupied(mask, depth),
    ensures
        walked(mask, segments, depth, k, tiles, 0) == occupied_in(mask, segments.take(k), depth),
        walked(mask, segments, depth, k, tiles, tiles.len() as int) == occupied_in(
            mask,
            segments.take(k + 1),
            depth,
        ),
{
    assert(tiles.take(0).to_set() =~= Set::empty());
    assert(walked(mask, segments, depth, k, tiles, 0) =~= occupied_in(
        mask,
        segments.take(k),
        depth,
    ));
    assert(tiles.take(tiles.len() as int) =~= tiles);
    let a = occupied_in(mask, segments.take(k), depth);
    let b = occupied_in(mask, segments.take(k + 1), depth);
    assert forall|t: u64| a.union(tiles.to_set()).contains(t) == b.contains(t) by {
        if a.contains(t) {
            let i = choose|i: int|
                0 <= i < k && (#[trigger] segments.take(k)[i]).occupied(mask, depth).contains(t);
            assert(segments.take(k + 1)[i] == segments.take(k)[i]);
        }
        if tiles.to_set().contains(t) {
            assert(segments.take(k + 1)[k] == segments[k]);
        }
        if b.contains(t) {
            let i = choose|i: int|
                0 <= i < k + 1 && (#[trigger] segments.take(k + 1)[i]).occupied(
                    mask,
                    depth,
                ).contains(t);
            if i < k {
                assert(segments.take(k)[i] == segments.take(k + 1)[i]);
            }
        }
    }
    assert(a.union(tiles.to_set()) =~= b);
}

/// The running maximum reads only the rungs at or above its depth.
proof fn lemma_running_reads(a: Seq<u64>, b: Seq<u64>, depth: int)
    requires
        forall|d: int| 0 <= d <= depth ==> a[d] == b[d],
    ensures
        running(a, depth) == running(b, depth),
    decreases depth + 1,
{
    if depth >= 0 {
        lemma_running_reads(a, b, depth - 1);
    }
}

/// How many tiles of each depth are occupied, estimated from one walk of every segment at a
/// precision between 7 and 18.
pub fn occupied_tiles_ladder_with_precision(
    mask: &Bitmap,
    segments: &Vec<SegmentCodes>,
    depth: u8,
    precision: u32,
) -> (ladder: OccupancyLadder)
    requires
        segments_wf(segments@),
        depth <= 16,
        precise(precision),
    ensures
        ladder.wf(),
        ladder.depth == depth,
        !ladder.exact,
        forall|d: int|
            0 <= d <= depth ==> (#[trigger] ladder.raw@[d]) == clamped(
                estimated_rungs(bits(*mask), segments@, precision)[d],
                d,
            ),
        forall|d: int|
            0 <= d <= depth ==> (#[trigger] ladder.counts@[d]) == running(
                estimated_rungs(bits(*mask), segments@, precision),
                d,
            ),
        forall|d: int|
            depth < d < 17 ==> (#[trigger] ladder.counts@[d]) == 0 && ladder.raw@[d] == 0,
{
    let ghost seen = bits(*mask);
    let mut planes: Vec<TileSketch> = Vec::new();
    let mut last: Vec<u64> = Vec::new();
    let mut d: u8 = 0;
    while d <= depth
        invariant
            d <= depth + 1,
            depth <= 16,
            precise(precision),
            planes@.len() == d,
            last@.len() == d,
            forall|k: int|
                0 <= k < d ==> sketched_to(
                    #[trigger] planes@[k],
                    last@[k],
                    Set::empty(),
                    depth as int,
                    k,
                    precision,
                ),
        decreases depth + 1 - d,
    {
        proof {
            assert(ancestors(Set::empty(), depth - d) =~= Set::empty());
        }
        planes.push(TileSketch::with_precision(precision));
        last.push(u64::MAX);
        d += 1;
    }
    let mut k: usize = 0;
    proof {
        assert(occupied_in(seen, segments@.take(0), depth) =~= Set::empty());
    }
    while k < segments.len()
        invariant
            k <= segments@.len(),
            depth <= 16,
            precise(precision),
            segments_wf(segments@),
            seen == bits(*mask),
            planes@.len() == depth + 1,
            last@.len() == depth + 1,
            forall|j: int|
                0 <= j <= depth ==> sketched_to(
                    #[trigger] planes@[j],
                    last@[j],
                    occupied_in(seen, segments@.take(k as int), depth),
                    depth as int,
                    j,
                    precision,
                ),
        decreases segments@.len() - k,
    {
        assert(segments@[k as int].wf());
        let tiles = for_each_occupied_tile(mask, &segments[k], depth);
        let mut n: usize = 0;
        proof {
            lemma_walked_segment(seen, segments@, depth, k as int, tiles@);
        }
        while n < tiles.len()
            invariant
                n <= tiles@.len(),
                k < segments@.len(),
                depth <= 16,
                precise(precision),
                planes@.len() == depth + 1,
                last@.len() == depth + 1,
                tiles@.to_set() == segments@[k as int].occupied(seen, depth),
                forall|j: int|
                    0 <= j <= depth ==> sketched_to(
                        #[trigger] planes@[j],
                        last@[j],
                        walked(seen, segments@, depth, k as int, tiles@, n as int),
                        depth as int,
                        j,
                        precision,
                    ),
            decreases tiles@.len() - n,
        {
            proof {
                assert(tiles@.contains(tiles@[n as int]));
                assert(tiles@.to_set().contains(tiles@[n as int]));
                let seg = segments@[k as int];
                let r = choose|r: int|
                    0 <= r < seg.rows() && #[trigger] seg.sees(seen, r) && tile_at(
                        seg.codes@[r],
                        depth,
                    ) == tiles@[n as int];
                lemma_tile_bound(seg.codes@[r], depth);
                lemma_walked_step(seen, segments@, depth, k as int, tiles@, n as int);
            }
            descend(
                &mut planes,
                &mut last,
                tiles[n],
                depth,
                precision,
                Ghost(walked(seen, segments@, depth, k as int, tiles@, n as int)),
            );
            n += 1;
        }
        k += 1;
    }
    let ghost rungs = estimated_rungs(seen, segments@, precision);
    let mut estimated: [u64; 17] = [0u64;17];
    let mut e: u8 = 0;
    proof {
        assert(segments@.take(k as int) =~= segments@);
    }
    while e <= depth
        invariant
            e <= depth + 1,
            depth <= 16,
            precise(precision),
            planes@.len() == depth + 1,
            last@.len() == depth + 1,
            rungs == estimated_rungs(seen, segments@, precision),
            forall|j: int|
                0 <= j <= depth ==> sketched_to(
                    #[trigger] planes@[j],
                    last@[j],
                    occupied_in(seen, segments@, depth),
                    depth as int,
                    j,
                    precision,
                ),
            forall|j: int| 0 <= j < e ==> (#[trigger] estimated@[j]) == rungs[j],
        decreases depth + 1 - e,
    {
        proof {
            let tiles = occupied_in(seen, segments@, e);
            law_one_walk_fills_every_depth(seen, segments@, depth, e);
            let plane = planes@[e as int];
            assert(sketches(plane.registers@, tiles, precision));
            law_a_sketch_is_a_function_of_the_tiles(
                plane.registers@,
                sketch_of(tiles, precision),
                tiles,
                precision,
            );
        }
        let rung: u64 = planes[e as usize].estimate();
        estimated[e as usize] = rung;
        e += 1;
    }
    let ladder = finish_ladder(estimated, depth, false);
    proof {
        assert forall|j: int| 0 <= j <= depth implies (#[trigger] ladder.raw@[j]) == clamped(
            rungs[j],
            j,
        ) by {
            assert(estimated@[j] == rungs[j]);
        }
        assert forall|j: int| 0 <= j <= depth implies (#[trigger] ladder.counts@[j]) == running(
            rungs,
            j,
        ) by {
            assert forall|i: int| 0 <= i <= j implies estimated@[i] == rungs[i] by {}
            lemma_running_reads(estimated@, rungs, j);
        }
    }
    ladder
}

/// How many tiles of a depth hold a visible row, before any depth above is considered: counted over
/// one segment, estimated over any other number and held to the grid.
pub open spec fn raw_rung(mask: Set<u32>, segments: Seq<SegmentCodes>, depth: u8) -> int {
    if segments.len() == 1 {
        occupied_in(mask, segments, depth).len() as int
    } else {
        clamped(estimated_rungs(mask, segments, SKETCH_PRECISION)[depth as int], depth as int)
    }
}

/// How many tiles of a depth are answered to hold a visible row. An estimate is never below that of
/// a depth above.
pub open spec fn rung(mask: Set<u32>, segments: Seq<SegmentCodes>, depth: u8) -> int {
    if segments.len() == 1 {
        occupied_in(mask, segments, depth).len() as int
    } else {
        running(estimated_rungs(mask, segments, SKETCH_PRECISION), depth as int)
    }
}

/// Whichever route fills it, a rung never falls as the depth grows and never passes the grid, so a
/// deeper depth draws no fewer marks.
pub proof fn law_a_rung_never_falls_with_depth(
    mask: Set<u32>,
    segments: Seq<SegmentCodes>,
    d: u8,
    depth: u8,
)
    requires
        d <= depth <= 16,
    ensures
        0 <= rung(mask, segments, d) <= rung(mask, segments, depth) <= grid(depth as int),
        raw_rung(mask, segments, depth) <= rung(mask, segments, depth),
{
    if segments.len() == 1 {
        law_occupied_tiles_grow_with_depth(mask, segments, d, depth);
        law_occupied_tiles_are_within_the_grid(mask, segments, depth);
    } else {
        let rungs = estimated_rungs(mask, segments, SKETCH_PRECISION);
        lemma_running(rungs, d as int);
        lemma_running(rungs, depth as int);
        lemma_running_climbs(rungs, d as int, depth as int);
    }
}

/// A running maximum is the greatest of the rungs up to its depth.
proof fn lemma_running_is_the_greatest(rungs: Seq<u64>, depth: int) -> (at: int)
    requires
        0 <= depth <= 16,
        rungs.len() == 17,
    ensures
        forall|d: int|
            0 <= d <= depth ==> clamped(#[trigger] rungs[d], d) <= running(rungs, depth),
        0 <= at <= depth,
        clamped(rungs[at], at) == running(rungs, depth),
    decreases depth,
{
    if depth == 0 {
        assert(running(rungs, -1) == 0);
        lemma_running(rungs, 0);
        0
    } else {
        let above = lemma_running_is_the_greatest(rungs, depth - 1);
        if running(rungs, depth - 1) > clamped(rungs[depth], depth) {
            above
        } else {
            depth
        }
    }
}

/// Whichever route fills it, a rung is the greatest of the raw rungs up to its depth.
pub proof fn law_a_rung_is_the_greatest_raw_rung(
    mask: Set<u32>,
    segments: Seq<SegmentCodes>,
    depth: u8,
)
    requires
        depth <= 16,
    ensures
        forall|d: u8|
            d <= depth ==> #[trigger] raw_rung(mask, segments, d) <= rung(mask, segments, depth),
        exists|d: u8|
            d <= depth && #[trigger] raw_rung(mask, segments, d) == rung(mask, segments, depth),
{
    if segments.len() == 1 {
        assert forall|d: u8| d <= depth implies #[trigger] raw_rung(mask, segments, d) <= rung(
            mask,
            segments,
            depth,
        ) by {
            law_occupied_tiles_grow_with_depth(mask, segments, d, depth);
        }
        assert(raw_rung(mask, segments, depth) == rung(mask, segments, depth));
    } else {
        let rungs = estimated_rungs(mask, segments, SKETCH_PRECISION);
        let at = lemma_running_is_the_greatest(rungs, depth as int);
        assert forall|d: u8| d <= depth implies #[trigger] raw_rung(mask, segments, d) <= rung(
            mask,
            segments,
            depth,
        ) by {
            assert(clamped(rungs[d as int], d as int) <= running(rungs, depth as int));
        }
        assert(raw_rung(mask, segments, at as u8) == rung(mask, segments, depth));
    }
}

/// Whether some row of some segment is visible.
pub open spec fn sees_any(mask: Set<u32>, segments: Seq<SegmentCodes>) -> bool {
    exists|k: int, r: int|
        0 <= k < segments.len() && 0 <= r < segments[k].rows() && #[trigger] segments[k].sees(
            mask,
            r,
        )
}

/// Whichever route fills it, the rung of the whole map is one where any row is visible and zero
/// where none is: holding an estimate to the grid makes it a count there.
pub proof fn law_the_whole_map_is_one_tile(mask: Set<u32>, segments: Seq<SegmentCodes>)
    ensures
        rung(mask, segments, 0) == if sees_any(mask, segments) {
            1int
        } else {
            0
        },
{
    let tiles = occupied_in(mask, segments, 0);
    assert forall|t: u64| #[trigger] tiles.contains(t) implies t == 0 && sees_any(
        mask,
        segments,
    ) by {
        let k = choose|k: int|
            0 <= k < segments.len() && (#[trigger] segments[k]).occupied(mask, 0).contains(t);
        let r = choose|r: int|
            0 <= r < segments[k].rows() && #[trigger] segments[k].sees(mask, r) && tile_at(
                segments[k].codes@[r],
                0,
            ) == t;
        lemma_tile_at_the_top(segments[k].codes@[r]);
    }
    if sees_any(mask, segments) {
        let (k, r) = choose|k: int, r: int|
            0 <= k < segments.len() && 0 <= r < segments[k].rows() && #[trigger] segments[k].sees(
                mask,
                r,
            );
        lemma_tile_at_the_top(segments[k].codes@[r]);
        assert(segments[k].occupied(mask, 0).contains(0));
        assert(tiles =~= set![0u64]);
    } else {
        assert(tiles =~= Set::<u64>::empty());
    }
    if segments.len() != 1 {
        let registers = sketch_of(tiles, SKETCH_PRECISION);
        lemma_a_sketch_exists(tiles);
        lemma_estimate_of_a_tile(registers, tiles, 0);
        let rungs = estimated_rungs(mask, segments, SKETCH_PRECISION);
        assert(rungs[0] == estimate_of(registers, SKETCH_PRECISION) as u64);
        lemma2_to64();
        assert(running(rungs, -1) == 0);
        assert(grid(0) == 1);
    }
}

/// Every code lies in the one tile of the whole map.
proof fn lemma_tile_at_the_top(code: u32)
    ensures
        tile_at(code, 0) == 0,
{
    assert((code as u64) >> 32u64 == 0) by (bit_vector);
}

/// The engine's sketch of no tile, or of one, is some register array.
proof fn lemma_a_sketch_exists(tiles: Set<u64>)
    requires
        tiles == Set::<u64>::empty() || tiles == set![0u64],
    ensures
        sketches(sketch_of(tiles, SKETCH_PRECISION), tiles, SKETCH_PRECISION),
{
    let blank = Seq::new(pow2(SKETCH_PRECISION as nat), |j: int| 0u8);
    assert(sketches(blank, Set::empty(), SKETCH_PRECISION));
    if tiles == set![0u64] {
        law_recording_adds_the_tile(blank, Set::empty(), 0, SKETCH_PRECISION);
        assert(Set::<u64>::empty().insert(0) =~= tiles);
    }
}

/// How many tiles of each depth hold a visible row: counted over one segment, estimated over any
/// other number. What it answers of a depth does not depend on how deep it was filled.
pub fn occupied_tiles_ladder(
    mask: &Bitmap,
    segments: &Vec<SegmentCodes>,
    depth: u8,
) -> (ladder: OccupancyLadder)
    requires
        segments_wf(segments@),
        depth <= 16,
    ensures
        ladder.wf(),
        ladder.depth == depth,
        ladder.exact == (segments@.len() == 1),
        forall|d: u8|
            d <= depth ==> ladder.counts@[d as int] == #[trigger] rung(bits(*mask), segments@, d),
        forall|d: u8|
            d <= depth ==> ladder.raw@[d as int] == #[trigger] raw_rung(
                bits(*mask),
                segments@,
                d,
            ),
        forall|d: int|
            depth < d < 17 ==> (#[trigger] ladder.counts@[d]) == 0 && ladder.raw@[d] == 0,
{
    if segments.len() == 1 {
        occupied_tiles_ladder_exact(mask, segments, depth)
    } else {
        occupied_tiles_ladder_with_precision(mask, segments, depth, SKETCH_PRECISION)
    }
}

/// How many tiles of one depth hold a visible row of the view.
pub fn occupied_tiles(mask: &Bitmap, segments: &Vec<SegmentCodes>, depth: u8) -> (count: u64)
    requires
        segments_wf(segments@),
        depth <= 16,
    ensures
        count == rung(bits(*mask), segments@, depth),
{
    let ladder = occupied_tiles_ladder(mask, segments, depth);
    ladder.at(depth)
}

/// A tile of a depth is occupied exactly where a visible row of some segment has a code in it: the
/// codes of a tile are the stretch, as long as a tile of that depth, that begins at the tile's
/// number times that length.
pub proof fn law_a_tile_is_occupied_where_a_visible_row_lies(
    mask: Set<u32>,
    segments: Seq<SegmentCodes>,
    depth: u8,
    tile: u64,
)
    requires
        depth <= 16,
        segments_wf(segments),
    ensures
        occupied_in(mask, segments, depth).contains(tile) <==> exists|k: int, r: int|
            0 <= k < segments.len() && 0 <= r < segments[k].row_count && r
                < segments[k].codes@.len() && mask.contains((segments[k].row_base + r) as u32)
                && tile as int == (#[trigger] segments[k].codes@[r]) as int / pow2(
                (32 - 2 * depth) as nat,
            ) as int,
{
    let shift = (32 - 2 * depth) as u64;
    assert forall|code: u32| #[trigger]
        tile_at(code, depth) as int == code as int / pow2((32 - 2 * depth) as nat) as int by {
        lemma_u64_shr_is_div(code as u64, shift);
    }
    if occupied_in(mask, segments, depth).contains(tile) {
        let k = choose|k: int|
            0 <= k < segments.len() && (#[trigger] segments[k]).occupied(mask, depth).contains(
                tile,
            );
        let seg = segments[k];
        let r = choose|r: int|
            0 <= r < seg.rows() && #[trigger] seg.sees(mask, r) && tile_at(seg.codes@[r], depth)
                == tile;
        assert(segments[k].codes@[r] == seg.codes@[r]);
    }
    if exists|k: int, r: int|
        0 <= k < segments.len() && 0 <= r < segments[k].row_count && r < segments[k].codes@.len()
            && mask.contains((segments[k].row_base + r) as u32) && tile as int == (
        #[trigger] segments[k].codes@[r]) as int / pow2((32 - 2 * depth) as nat) as int {
        let (k, r) = choose|k: int, r: int|
            0 <= k < segments.len() && 0 <= r < segments[k].row_count && r
                < segments[k].codes@.len() && mask.contains((segments[k].row_base + r) as u32)
                && tile as int == (#[trigger] segments[k].codes@[r]) as int / pow2(
                (32 - 2 * depth) as nat,
            ) as int;
        assert(segments[k].sees(mask, r));
        assert(tile_at(segments[k].codes@[r], depth) == tile);
        assert(segments[k].occupied(mask, depth).contains(tile));
    }
}

/// A raw rung over one segment is how many tiles of its own depth hold a visible row. Over any
/// other number it is the estimate from the sketch of those tiles, at the depth and no other, or as
/// many tiles as the depth has where that is less.
pub proof fn law_a_raw_rung_is_of_its_own_depth(
    mask: Set<u32>,
    segments: Seq<SegmentCodes>,
    depth: u8,
    registers: Seq<u8>,
)
    requires
        depth <= 16,
        sketches(registers, occupied_in(mask, segments, depth), SKETCH_PRECISION),
    ensures
        segments.len() == 1 ==> raw_rung(mask, segments, depth) == occupied_in(
            mask,
            segments,
            depth,
        ).len(),
        segments.len() != 1 ==> {
            let estimate = estimate_of(registers, SKETCH_PRECISION) as u64;
            &&& estimate < pow2((2 * depth) as nat) ==> raw_rung(mask, segments, depth) == estimate
            &&& estimate >= pow2((2 * depth) as nat) ==> raw_rung(mask, segments, depth) == pow2(
                (2 * depth) as nat,
            )
        },
{
    let tiles = occupied_in(mask, segments, depth);
    law_a_sketch_is_a_function_of_the_tiles(
        sketch_of(tiles, SKETCH_PRECISION),
        registers,
        tiles,
        SKETCH_PRECISION,
    );
}

} // verus!
