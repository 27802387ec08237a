//! A spatial level's membership: row ranges, one set per ordinal.
//!
//! An artifact's members are the rows of the tiles that cover its shape. A tile is a contiguous
//! range of rows within a segment, so a membership is a handful of ranges, merged where they touch;
//! the merge never widens it.

use std::ops::Range;
use croaring::Bitmap;
use vstd::prelude::*;
use vstd::slice::slice_subrange;

use crate::bitmap;
use crate::bitmap::{bits, lemma_disjoint_len, lemma_finite, lemma_len_bound, lemma_span_len, span};
use crate::order::{lemma_sorted_members, sorted, stable_sort, Ranked};
use crate::runs::{apart, covered, covers, rows_of};

verus! {

/// The spans that an artifact's tiles resolve to in one segment, and where that segment's rows
/// begin in the view's row space.
#[derive(Debug)]
pub struct SegmentSpans {
    pub row_base: u32,
    pub spans: Vec<(u32, u32)>,
}

/// One level's memberships as row ranges: ascending and disjoint within each ordinal.
#[derive(Debug)]
pub struct RangeSets {
    /// `at[ordinal]..at[ordinal + 1]` indexes `ranges`. One longer than the ordinal count.
    pub at: Vec<u32>,
    /// `[lo, hi)` per range, in view row space.
    pub ranges: Vec<(u32, u32)>,
}

/// No range is empty, and each ends no later than the next one starts.
pub open spec fn disjoint(runs: Seq<(u32, u32)>) -> bool {
    &&& forall|i: int| 0 <= i < runs.len() ==> (#[trigger] runs[i]).0 < runs[i].1
    &&& forall|i: int, j: int|
        0 <= i < j < runs.len() ==> (#[trigger] runs[i]).1 <= (#[trigger] runs[j]).0
}

impl SegmentSpans {
    /// Whether the view's row `x` is in one of these spans.
    pub open spec fn holds(&self, x: int) -> bool {
        covered(self.spans@, x - self.row_base)
    }

    /// The rows stay within the row space.
    pub open spec fn wf(&self) -> bool {
        forall|i: int|
            0 <= i < self.spans@.len() ==> self.row_base + (#[trigger] self.spans@[i]).1 <= u32::MAX
    }
}

/// An artifact's resolved shape: none for a hole.
pub type Shape = Option<Vec<SegmentSpans>>;

/// The rows of a resolved shape.
pub open spec fn shape_rows(shape: Shape) -> Set<u32> {
    Set::new(
        |x: u32|
            match shape {
                Some(parts) => exists|k: int|
                    0 <= k < parts@.len() && (#[trigger] parts@[k]).holds(x as int),
                None => false,
            },
    )
}

/// How many spans a resolved shape has.
pub open spec fn span_count(parts: Seq<SegmentSpans>) -> nat
    decreases parts.len(),
{
    if parts.len() == 0 {
        0
    } else {
        span_count(parts.drop_last()) + parts.last().spans@.len()
    }
}

/// How many spans the shapes have together.
pub open spec fn total_spans(shapes: Seq<Shape>) -> nat
    decreases shapes.len(),
{
    if shapes.len() == 0 {
        0
    } else {
        total_spans(shapes.drop_last()) + match shapes.last() {
            Some(parts) => span_count(parts@),
            None => 0,
        }
    }
}

/// Every part of every shape stays within the row space.
pub open spec fn shapes_wf(shapes: Seq<Shape>) -> bool {
    forall|i: int, k: int|
        0 <= i < shapes.len() && shapes[i] is Some && 0 <= k < shapes[i]->0@.len() ==> (
        #[trigger] shapes[i]->0@[k]).wf()
}

proof fn lemma_total_step(shapes: Seq<Shape>, i: int)
    requires
        0 <= i < shapes.len(),
    ensures
        total_spans(shapes.take(i + 1)) == total_spans(shapes.take(i)) + match shapes[i] {
            Some(parts) => span_count(parts@),
            None => 0,
        },
        total_spans(shapes.take(i + 1)) <= total_spans(shapes),
    decreases shapes.len() - i,
{
    assert(shapes.take(i + 1).drop_last() =~= shapes.take(i));
    if i + 1 < shapes.len() {
        lemma_total_step(shapes, i + 1);
    } else {
        assert(shapes.take(i + 1) =~= shapes);
    }
}

proof fn lemma_span_count_step(parts: Seq<SegmentSpans>, k: int)
    requires
        0 <= k < parts.len(),
    ensures
        span_count(parts.take(k + 1)) == span_count(parts.take(k)) + parts[k].spans@.len(),
{
    assert(parts.take(k + 1).drop_last() =~= parts.take(k));
}

/// Every span of a shape that is not empty, in the view's row space.
fn resolved(parts: &Vec<SegmentSpans>) -> (spans: Vec<(u32, u32)>)
    requires
        forall|k: int| 0 <= k < parts@.len() ==> (#[trigger] parts@[k]).wf(),
    ensures
        spans@.len() <= span_count(parts@),
        forall|i: int| 0 <= i < spans@.len() ==> (#[trigger] spans@[i]).0 < spans@[i].1,
        forall|x: int|
            0 <= x ==> #[trigger] covered(spans@, x) == exists|k: int|
                0 <= k < parts@.len() && (#[trigger] parts@[k]).holds(x),
{
    let mut spans: Vec<(u32, u32)> = Vec::new();
    let mut k: usize = 0;
    while k < parts.len()
        invariant
            k <= parts@.len(),
            forall|j: int| 0 <= j < parts@.len() ==> (#[trigger] parts@[j]).wf(),
            spans@.len() <= span_count(parts@.take(k as int)),
            forall|i: int| 0 <= i < spans@.len() ==> (#[trigger] spans@[i]).0 < spans@[i].1,
            forall|x: int|
                0 <= x ==> #[trigger] covered(spans@, x) == exists|j: int|
                    0 <= j < k && (#[trigger] parts@[j]).holds(x),
        decreases parts@.len() - k,
    {
        let part = &parts[k];
        let base: u32 = part.row_base;
        let ghost earlier = spans@;
        let mut n: usize = 0;
        assert(parts@[k as int].wf());
        while n < part.spans.len()
            invariant
                n <= part.spans@.len(),
                part.wf(),
                base == part.row_base,
                spans@.len() <= earlier.len() + n,
                forall|i: int| 0 <= i < spans@.len() ==> (#[trigger] spans@[i]).0 < spans@[i].1,
                forall|x: int|
                    0 <= x ==> #[trigger] covered(spans@, x) == (covered(earlier, x) || covered(
                        part.spans@.take(n as int),
                        x - base,
                    )),
            decreases part.spans@.len() - n,
        {
            let (start, end) = part.spans[n];
            let ghost before = spans@;
            let ghost here = part.spans@.take(n as int);
            let ghost next = part.spans@.take(n + 1);
            proof {
                assert(part.spans@[n as int] == (start, end));
                assert forall|y: int| #[trigger] covered(next, y) == (covered(here, y)
                    || start <= y < end) by {
                    if covered(here, y) {
                        let i = choose|i: int| 0 <= i < here.len() && covers(#[trigger] here[i], y);
                        assert(covers(next[i], y));
                    }
                    if start <= y < end {
                        assert(covers(next[n as int], y));
                    }
                    if covered(next, y) {
                        let i = choose|i: int| 0 <= i < next.len() && covers(#[trigger] next[i], y);
                        if i < n {
                            assert(covers(here[i], y));
                        }
                    }
                }
            }
            if start < end {
                spans.push((base + start, base + end));
                proof {
                    assert forall|x: int| 0 <= x implies #[trigger] covered(spans@, x) == (covered(
                        before,
                        x,
                    ) || base + start <= x < base + end) by {
                        if covered(before, x) {
                            let i = choose|i: int|
                                0 <= i < before.len() && covers(#[trigger] before[i], x);
                            assert(covers(spans@[i], x));
                        }
                        if base + start <= x < base + end {
                            assert(covers(spans@[before.len() as int], x));
                        }
                        if covered(spans@, x) {
                            let i = choose|i: int|
                                0 <= i < spans@.len() && covers(#[trigger] spans@[i], x);
                            if i < before.len() {
                                assert(covers(before[i], x));
                            }
                        }
                    }
                }
            }
            n += 1;
            proof {
                assert forall|x: int| 0 <= x implies #[trigger] covered(spans@, x) == (covered(
                    earlier,
                    x,
                ) || covered(part.spans@.take(n as int), x - base)) by {
                    assert(covered(before, x) == (covered(earlier, x) || covered(here, x - base)));
                    assert(covered(next, x - base) == (covered(here, x - base) || start <= x - base
                        < end));
                }
            }
        }
        proof {
            assert(part.spans@.take(n as int) =~= part.spans@);
            lemma_span_count_step(parts@, k as int);
        }
        k += 1;
        proof {
            assert forall|x: int| 0 <= x implies #[trigger] covered(spans@, x) == exists|j: int|
                0 <= j < k && (#[trigger] parts@[j]).holds(x) by {
                if covered(earlier, x) {
                    let j = choose|j: int| 0 <= j < k - 1 && (#[trigger] parts@[j]).holds(x);
                    assert(parts@[j].holds(x));
                }
                if part.holds(x) {
                    assert(parts@[k - 1].holds(x));
                }
                if exists|j: int| 0 <= j < k && (#[trigger] parts@[j]).holds(x) {
                    let j = choose|j: int| 0 <= j < k && (#[trigger] parts@[j]).holds(x);
                    if j < k - 1 {
                        assert(covered(earlier, x));
                    }
                }
            }
        }
    }
    assert(parts@.take(k as int) =~= parts@);
    spans
}

/// Spans in ascending order, merged where they overlap or touch, onto the end of a table.
fn merge_onto(table: &mut Vec<(u32, u32)>, spans: &Vec<(u32, u32)>)
    requires
        sorted(spans@),
        forall|i: int| 0 <= i < spans@.len() ==> (#[trigger] spans@[i]).0 < spans@[i].1,
        old(table)@.len() + spans@.len() <= u32::MAX,
    ensures
        old(table)@.len() <= final(table)@.len() <= old(table)@.len() + spans@.len(),
        final(table)@.take(old(table)@.len() as int) == old(table)@,
        apart(final(table)@.skip(old(table)@.len() as int)),
        forall|x: int| #[trigger]
            covered(final(table)@.skip(old(table)@.len() as int), x) == covered(spans@, x),
{
    let own: usize = table.len();
    let ghost earlier = table@;
    let mut k: usize = 0;
    proof {
        assert(table@.take(own as int) =~= earlier);
        assert(table@.skip(own as int) =~= Seq::<(u32, u32)>::empty());
    }
    while k < spans.len()
        invariant
            k <= spans@.len(),
            sorted(spans@),
            forall|i: int| 0 <= i < spans@.len() ==> (#[trigger] spans@[i]).0 < spans@[i].1,
            own == earlier.len(),
            own <= table@.len() <= own + k,
            table@.take(own as int) == earlier,
            apart(table@.skip(own as int)),
            forall|i: int, n: int|
                own <= i < table@.len() && k <= n < spans@.len() ==> (#[trigger] table@[i]).0 <= (
                #[trigger] spans@[n]).0,
            forall|x: int| #[trigger]
                covered(table@.skip(own as int), x) == covered(spans@.take(k as int), x),
        decreases spans@.len() - k,
    {
        let (lo, hi) = spans[k];
        let ghost before = table@;
        let ghost tail = table@.skip(own as int);
        let ghost next = spans@.take(k + 1);
        let ghost here = spans@.take(k as int);
        proof {
            assert(spans@[k as int] == (lo, hi));
            assert forall|n: int| k <= n < spans@.len() implies lo <= (#[trigger] spans@[n]).0 by {
                if n > k {
                    assert(spans@[k as int].precedes(spans@[n]));
                }
            }
            assert forall|y: int| #[trigger] covered(next, y) == (covered(here, y) || lo <= y
                < hi) by {
                if covered(here, y) {
                    let i = choose|i: int| 0 <= i < here.len() && covers(#[trigger] here[i], y);
                    assert(covers(next[i], y));
                }
                if lo <= y < hi {
                    assert(covers(next[k as int], y));
                }
                if covered(next, y) {
                    let i = choose|i: int| 0 <= i < next.len() && covers(#[trigger] next[i], y);
                    if i < k {
                        assert(covers(here[i], y));
                    }
                }
            }
        }
        if table.len() > own && table[table.len() - 1].1 >= lo {
            let last: usize = table.len() - 1;
            let (start, end) = table[last];
            let furthest: u32 = if end > hi {
                end
            } else {
                hi
            };
            table.set(last, (start, furthest));
            proof {
                let now = table@.skip(own as int);
                assert(table@.take(own as int) =~= earlier);
                assert(tail[tail.len() - 1] == (start, end));
                assert(start <= lo) by {
                    assert(before[last as int].0 <= spans@[k as int].0);
                }
                assert(now =~= tail.update(tail.len() - 1, (start, furthest)));
                assert forall|x: int| #[trigger] covered(now, x) == (covered(tail, x) || lo <= x
                    < hi) by {
                    if covered(tail, x) {
                        let i = choose|i: int| 0 <= i < tail.len() && covers(#[trigger] tail[i], x);
                        assert(covers(now[i], x));
                    }
                    if lo <= x < hi {
                        assert(covers(now[tail.len() - 1], x));
                    }
                    if covered(now, x) {
                        let i = choose|i: int| 0 <= i < now.len() && covers(#[trigger] now[i], x);
                        if i < tail.len() - 1 {
                            assert(covers(tail[i], x));
                        } else if x < end {
                            assert(covers(tail[tail.len() - 1], x));
                        }
                    }
                }
            }
        } else {
            table.push((lo, hi));
            proof {
                let now = table@.skip(own as int);
                assert(table@.take(own as int) =~= earlier);
                assert(now =~= tail.push((lo, hi)));
                if tail.len() > 0 {
                    assert(tail[tail.len() - 1] == before[before.len() - 1]);
                    assert forall|i: int| 0 <= i < tail.len() implies (#[trigger] tail[i]).1
                        < lo by {
                        if i < tail.len() - 1 {
                            assert(tail[i].1 < tail[tail.len() - 1].0);
                        }
                    }
                }
                assert forall|x: int| #[trigger] covered(now, x) == (covered(tail, x) || lo <= x
                    < hi) by {
                    if covered(tail, x) {
                        let i = choose|i: int| 0 <= i < tail.len() && covers(#[trigger] tail[i], x);
                        assert(covers(now[i], x));
                    }
                    if lo <= x < hi {
                        assert(covers(now[tail.len() as int], x));
                    }
                    if covered(now, x) {
                        let i = choose|i: int| 0 <= i < now.len() && covers(#[trigger] now[i], x);
                        if i < tail.len() {
                            assert(covers(tail[i], x));
                        }
                    }
                }
            }
        }
        k += 1;
    }
    assert(spans@.take(k as int) =~= spans@);
}

proof fn lemma_same_cover(a: Seq<(u32, u32)>, b: Seq<(u32, u32)>)
    requires
        forall|x: (u32, u32)| #[trigger] a.contains(x) == b.contains(x),
    ensures
        forall|x: int| #[trigger] covered(a, x) == covered(b, x),
{
    assert forall|x: int| #[trigger] covered(a, x) == covered(b, x) by {
        if covered(a, x) {
            let i = choose|i: int| 0 <= i < a.len() && covers(#[trigger] a[i], x);
            assert(a.contains(a[i]));
            let j = choose|j: int| 0 <= j < b.len() && b[j] == a[i];
            assert(covers(b[j], x));
        }
        if covered(b, x) {
            let i = choose|i: int| 0 <= i < b.len() && covers(#[trigger] b[i], x);
            assert(b.contains(b[i]) && a.contains(b[i]));
            let j = choose|j: int| 0 <= j < a.len() && a[j] == b[i];
            assert(covers(a[j], x));
        }
    }
}

impl RangeSets {
    /// The offsets ascend from zero to the end of the table, and every ordinal's ranges are
    /// ascending and disjoint.
    pub open spec fn wf(&self) -> bool {
        &&& self.at@.len() >= 1
        &&& self.at@[0] == 0
        &&& self.at@.last() == self.ranges@.len()
        &&& forall|i: int, j: int| 0 <= i <= j < self.at@.len() ==> self.at@[i] <= self.at@[j]
        &&& forall|ordinal: int|
            0 <= ordinal < self.at@.len() - 1 ==> disjoint(#[trigger] self.own(ordinal))
    }

    /// An ordinal's ranges: none past the level.
    pub open spec fn own(&self, ordinal: int) -> Seq<(u32, u32)> {
        if 0 <= ordinal < self.at@.len() - 1 {
            self.ranges@.subrange(self.at@[ordinal] as int, self.at@[ordinal + 1] as int)
        } else {
            Seq::empty()
        }
    }

    /// An ordinal's members.
    pub open spec fn members(&self, ordinal: int) -> Set<u32> {
        rows_of(self.own(ordinal))
    }

    /// The row ranges of every artifact, from the spans its tiles resolve to.
    pub fn build(shapes: &Vec<Shape>) -> (sets: Self)
        requires
            shapes_wf(shapes@),
            total_spans(shapes@) <= u32::MAX,
        ensures
            sets.wf(),
            sets.at@.len() == shapes@.len() + 1,
            forall|i: int|
                0 <= i < shapes@.len() ==> (#[trigger] sets.members(i)) == shape_rows(shapes@[i]),
            forall|i: int| 0 <= i < shapes@.len() ==> apart(#[trigger] sets.own(i)),
    {
        let mut at: Vec<u32> = Vec::new();
        at.push(0);
        let mut ranges: Vec<(u32, u32)> = Vec::new();
        let mut i: usize = 0;
        while i < shapes.len()
            invariant
                i <= shapes@.len(),
                shapes_wf(shapes@),
                total_spans(shapes@) <= u32::MAX,
                at@.len() == i + 1,
                at@[0] == 0,
                at@.last() == ranges@.len(),
                ranges@.len() <= total_spans(shapes@.take(i as int)),
                forall|a: int, b: int| 0 <= a <= b < at@.len() ==> at@[a] <= at@[b],
                forall|k: int|
                    0 <= k < i ==> rows_of(
                        #[trigger] ranges@.subrange(at@[k] as int, at@[k + 1] as int),
                    ) == shape_rows(shapes@[k]),
                forall|k: int|
                    0 <= k < i ==> apart(
                        #[trigger] ranges@.subrange(at@[k] as int, at@[k + 1] as int),
                    ),
            decreases shapes@.len() - i,
        {
            let ghost before = ranges@;
            let ghost before_at = at@;
            proof {
                lemma_total_step(shapes@, i as int);
            }
            match &shapes[i] {
                Some(parts) => {
                    proof {
                        assert forall|k: int| 0 <= k < parts@.len() implies (
                        #[trigger] parts@[k]).wf() by {
                            assert(shapes@[i as int]->0@[k].wf());
                        }
                    }
                    let spans = resolved(parts);
                    let ghost plain = spans@;
                    let ordered = stable_sort(spans);
                    proof {
                        assert forall|x: (u32, u32)| #[trigger] plain.contains(x)
                            == ordered@.contains(x) by {
                            lemma_sorted_members(plain, x);
                        }
                        lemma_same_cover(plain, ordered@);
                        assert forall|k: int| 0 <= k < ordered@.len() implies (
                        #[trigger] ordered@[k]).0 < ordered@[k].1 by {
                            assert(ordered@.contains(ordered@[k]) && plain.contains(ordered@[k]));
                            let j = choose|j: int| 0 <= j < plain.len() && plain[j] == ordered@[k];
                            assert(plain[j].0 < plain[j].1);
                        }
                    }
                    merge_onto(&mut ranges, &ordered);
                    proof {
                        let fresh = ranges@.skip(before.len() as int);
                        assert(ranges@.subrange(before.len() as int, ranges@.len() as int)
                            =~= fresh);
                        assert forall|x: u32| rows_of(fresh).contains(x) == shape_rows(
                            shapes@[i as int],
                        ).contains(x) by {
                            assert(covered(fresh, x as int) == covered(ordered@, x as int));
                            assert(covered(plain, x as int) == covered(ordered@, x as int));
                        }
                        assert(rows_of(fresh) =~= shape_rows(shapes@[i as int]));
                    }
                },
                None => {
                    proof {
                        let fresh = ranges@.subrange(before.len() as int, ranges@.len() as int);
                        assert(fresh =~= Seq::<(u32, u32)>::empty());
                        assert(rows_of(fresh) =~= shape_rows(shapes@[i as int]));
                        assert(ranges@.take(before.len() as int) =~= before);
                    }
                },
            }
            at.push(ranges.len() as u32);
            i += 1;
            proof {
                assert forall|k: int| 0 <= k < i implies rows_of(
                    #[trigger] ranges@.subrange(at@[k] as int, at@[k + 1] as int),
                ) == shape_rows(shapes@[k]) && apart(
                    ranges@.subrange(at@[k] as int, at@[k + 1] as int),
                ) by {
                    if k < i - 1 {
                        let lo = before_at[k] as int;
                        let hi = before_at[k + 1] as int;
                        assert(before_at[k + 1] <= before_at[i - 1]);
                        assert(ranges@.subrange(lo, hi) =~= ranges@.take(
                            before.len() as int,
                        ).subrange(lo, hi));
                        assert(before.subrange(lo, hi) == ranges@.subrange(lo, hi));
                    }
                }
            }
        }
        let sets = RangeSets { at, ranges };
        proof {
            assert forall|k: int| 0 <= k < shapes@.len() implies (#[trigger] sets.members(k))
                == shape_rows(shapes@[k]) by {
                assert(sets.own(k) == sets.ranges@.subrange(
                    sets.at@[k] as int,
                    sets.at@[k + 1] as int,
                ));
            }
            assert forall|k: int| 0 <= k < shapes@.len() implies apart(#[trigger] sets.own(k)) by {
                assert(sets.own(k) == sets.ranges@.subrange(
                    sets.at@[k] as int,
                    sets.at@[k + 1] as int,
                ));
            }
            assert forall|ordinal: int| 0 <= ordinal < sets.at@.len() - 1 implies disjoint(
                #[trigger] sets.own(ordinal),
            ) by {
                assert(apart(sets.own(ordinal)));
            }
        }
        sets
    }

    /// How many ordinals this covers, holes counted.
    pub fn len(&self) -> (count: usize)
        ensures
            count == if self.at@.len() == 0 {
                0
            } else {
                self.at@.len() - 1
            },
    {
        if self.at.len() == 0 {
            0
        } else {
            self.at.len() - 1
        }
    }

    pub fn is_empty(&self) -> (yes: bool)
        ensures
            yes == (self.at@.len() <= 1),
    {
        self.len() == 0
    }

    /// This artifact's ranges: none for a hole, and none past the level.
    pub fn ranges(&self, ordinal: u32) -> (own: &[(u32, u32)])
        requires
            self.wf(),
        ensures
            own@ == self.own(ordinal as int),
    {
        let i: usize = ordinal as usize;
        if i < self.len() {
            let lo: usize = self.at[i] as usize;
            let hi: usize = self.at[i + 1] as usize;
            assert(self.at@[i as int] <= self.at@[i + 1]);
            assert(self.at@[i + 1] <= self.at@[self.at@.len() - 1]);
            slice_subrange(self.ranges.as_slice(), lo, hi)
        } else {
            let none = slice_subrange(self.ranges.as_slice(), 0, 0);
            assert(none@ =~= Seq::<(u32, u32)>::empty());
            none
        }
    }

    proof fn lemma_own_disjoint(&self, ordinal: int)
        requires
            self.wf(),
        ensures
            disjoint(self.own(ordinal)),
    {
    }

    /// How many rows the artifact's ranges span, whoever may see them.
    pub fn declared_size(&self, ordinal: u32) -> (size: u64)
        requires
            self.wf(),
        ensures
            size == self.members(ordinal as int).len(),
    {
        let own = self.ranges(ordinal);
        proof {
            self.lemma_own_disjoint(ordinal as int);
            assert(own@.take(0) =~= Seq::<(u32, u32)>::empty());
            assert(rows_of(own@.take(0)) =~= Set::empty());
        }
        let mut size: u64 = 0;
        let mut i: usize = 0;
        while i < own.len()
            invariant
                i <= own@.len(),
                disjoint(own@),
                size == rows_of(own@.take(i as int)).len(),
            decreases own@.len() - i,
        {
            let (lo, hi) = own[i];
            proof {
                assert(own@[i as int].0 < own@[i as int].1);
                lemma_rows_step(own@, i as int, Set::full());
                lemma_span_len(lo as int, hi as int);
                lemma_len_bound(rows_of(own@.take(i + 1)));
                assert(Set::<u32>::full().intersect(rows_of(own@.take(i as int))) =~= rows_of(
                    own@.take(i as int),
                ));
                assert(Set::<u32>::full().intersect(rows_of(own@.take(i + 1))) =~= rows_of(
                    own@.take(i + 1),
                ));
                assert(Set::<u32>::full().intersect(span(lo as int, hi as int)) =~= span(
                    lo as int,
                    hi as int,
                ));
            }
            size = size + (hi - lo) as u64;
            i += 1;
        }
        assert(own@.take(i as int) =~= own@);
        size
    }

    /// How many of the artifact's members the mask admits.
    pub fn masked_count(&self, ordinal: u32, mask: &Bitmap) -> (count: u64)
        requires
            self.wf(),
        ensures
            count == bits(*mask).intersect(self.members(ordinal as int)).len(),
    {
        let own = self.ranges(ordinal);
        proof {
            self.lemma_own_disjoint(ordinal as int);
            assert(own@.take(0) =~= Seq::<(u32, u32)>::empty());
            assert(bits(*mask).intersect(rows_of(own@.take(0))) =~= Set::empty());
        }
        let mut count: u64 = 0;
        let mut i: usize = 0;
        while i < own.len()
            invariant
                i <= own@.len(),
                disjoint(own@),
                count == bits(*mask).intersect(rows_of(own@.take(i as int))).len(),
            decreases own@.len() - i,
        {
            let (lo, hi) = own[i];
            proof {
                lemma_rows_step(own@, i as int, bits(*mask));
                lemma_len_bound(bits(*mask).intersect(rows_of(own@.take(i + 1))));
            }
            count = count + bitmap::range_cardinality(mask, lo, hi);
            i += 1;
        }
        assert(own@.take(i as int) =~= own@);
        count
    }

    /// The artifact's rows.
    pub fn rows(&self, ordinal: u32) -> (rows: Bitmap)
        requires
            self.wf(),
        ensures
            bits(rows) == self.members(ordinal as int),
    {
        let own = self.ranges(ordinal);
        let mut rows = bitmap::empty();
        proof {
            self.lemma_own_disjoint(ordinal as int);
            assert(own@.take(0) =~= Seq::<(u32, u32)>::empty());
            assert(rows_of(own@.take(0)) =~= Set::empty());
        }
        let mut i: usize = 0;
        while i < own.len()
            invariant
                i <= own@.len(),
                disjoint(own@),
                bits(rows) == rows_of(own@.take(i as int)),
            decreases own@.len() - i,
        {
            let (lo, hi) = own[i];
            assert(own@[i as int].0 < own@[i as int].1);
            bitmap::insert_range(&mut rows, lo, hi - 1);
            proof {
                lemma_rows_step(own@, i as int, Set::full());
            }
            i += 1;
        }
        bitmap::run_optimize(&mut rows);
        assert(own@.take(i as int) =~= own@);
        rows
    }

    /// The artifacts that have a member among some rows.
    pub open spec fn meeting(&self, here: Set<u32>) -> Set<u32> {
        Set::new(
            |ordinal: u32|
                ordinal < self.at@.len() - 1 && here.intersect(self.members(ordinal as int))
                    != Set::<u32>::empty(),
        )
    }

    /// Which artifacts have a member among the rows of `here`.
    pub fn candidates(&self, here: &Bitmap) -> (ordinals: Bitmap)
        requires
            self.wf(),
        ensures
            bits(ordinals) == self.meeting(bits(*here)),
    {
        let mut ordinals = bitmap::empty();
        // A level past what an ordinal numbers has no more candidates.
        let count: u64 = if self.len() as u64 <= u32::MAX as u64 {
            self.len() as u64
        } else {
            u32::MAX as u64 + 1
        };
        let mut next: u64 = 0;
        while next < count
            invariant
                self.wf(),
                next <= count <= u32::MAX + 1,
                count <= self.at@.len() - 1,
                count < self.at@.len() - 1 ==> count == u32::MAX + 1,
                forall|x: u32| #[trigger]
                    bits(ordinals).contains(x) == (x < next && bits(*here).intersect(
                        self.members(x as int),
                    ) != Set::<u32>::empty()),
            decreases count - next,
        {
            let ordinal: u32 = next as u32;
            if self.meets(ordinal, here) {
                bitmap::insert(&mut ordinals, ordinal);
            }
            next += 1;
        }
        bitmap::run_optimize(&mut ordinals);
        assert(bits(ordinals) =~= self.meeting(bits(*here)));
        ordinals
    }

    /// Whether one of the artifact's ranges holds a row of `here`.
    fn meets(&self, ordinal: u32, here: &Bitmap) -> (yes: bool)
        requires
            self.wf(),
        ensures
            yes == (bits(*here).intersect(self.members(ordinal as int)) != Set::<u32>::empty()),
    {
        let own = self.ranges(ordinal);
        let ghost seen = bits(*here);
        let ghost members = self.members(ordinal as int);
        let mut i: usize = 0;
        while i < own.len()
            invariant
                i <= own@.len(),
                own@ == self.own(ordinal as int),
                members == rows_of(own@),
                seen == bits(*here),
                forall|k: int, x: u32|
                    0 <= k < i && covers(#[trigger] own@[k], x as int) ==> !(
                    #[trigger] seen.contains(x)),
            decreases own@.len() - i,
        {
            let (lo, hi) = own[i];
            let ghost part = seen.intersect(span(lo as int, hi as int));
            proof {
                lemma_finite(part);
            }
            if bitmap::range_cardinality(here, lo, hi) > 0 {
                proof {
                    let x = part.choose();
                    assert(part.contains(x));
                    assert(covers(own@[i as int], x as int));
                    assert(seen.intersect(members).contains(x));
                }
                return true;
            }
            proof {
                assert forall|x: u32| covers(own@[i as int], x as int) implies !(
                #[trigger] seen.contains(x)) by {
                    if seen.contains(x) {
                        assert(part.contains(x));
                    }
                }
            }
            i += 1;
        }
        assert(seen.intersect(members) =~= Set::empty()) by {
            assert forall|x: u32| !seen.intersect(members).contains(x) by {
                if covered(own@, x as int) {
                    let k = choose|k: int|
                        0 <= k < own@.len() && covers(#[trigger] own@[k], x as int);
                    assert(!seen.contains(x));
                }
            }
        }
        false
    }

    /// How many artifacts have a range.
    pub fn live(&self) -> (count: usize)
        requires
            self.wf(),
        ensures
            count == live_before(*self, self.at@.len() - 1),
    {
        let mut count: usize = 0;
        let mut ordinal: usize = 0;
        while ordinal < self.at.len() - 1
            invariant
                self.wf(),
                ordinal <= self.at@.len() - 1,
                count == live_before(*self, ordinal as int),
                count <= ordinal,
            decreases self.at@.len() - ordinal,
        {
            assert(self.at@[ordinal as int] <= self.at@[ordinal + 1]);
            assert(self.at@[ordinal + 1] <= self.at@[self.at@.len() - 1]);
            if self.at[ordinal] < self.at[ordinal + 1] {
                count += 1;
            }
            ordinal += 1;
        }
        count
    }
}

/// How many of the ordinals below `n` have a range.
pub open spec fn live_before(sets: RangeSets, n: int) -> nat
    decreases n,
{
    if n <= 0 {
        0
    } else {
        live_before(sets, n - 1) + if sets.own(n - 1).len() > 0 {
            1nat
        } else {
            0
        }
    }
}

/// One more range adds its rows, which no earlier range holds.
proof fn lemma_rows_step(own: Seq<(u32, u32)>, i: int, mask: Set<u32>)
    requires
        disjoint(own),
        0 <= i < own.len(),
    ensures
        rows_of(own.take(i + 1)) == rows_of(own.take(i)).union(span(own[i].0 as int, own[i].1 as int)),
        mask.intersect(rows_of(own.take(i + 1))).len() == mask.intersect(
            rows_of(own.take(i)),
        ).len() + mask.intersect(span(own[i].0 as int, own[i].1 as int)).len(),
{
    let before = own.take(i);
    let after = own.take(i + 1);
    let part = span(own[i].0 as int, own[i].1 as int);
    assert forall|x: u32| rows_of(after).contains(x) == (rows_of(before).contains(x)
        || part.contains(x)) by {
        if covered(before, x as int) {
            let k = choose|k: int| 0 <= k < before.len() && covers(#[trigger] before[k], x as int);
            assert(covers(after[k], x as int));
        }
        if part.contains(x) {
            assert(covers(after[i], x as int));
        }
        if covered(after, x as int) {
            let k = choose|k: int| 0 <= k < after.len() && covers(#[trigger] after[k], x as int);
            if k < i {
                assert(covers(before[k], x as int));
            }
        }
    }
    assert(rows_of(after) =~= rows_of(before).union(part));
    let a = mask.intersect(rows_of(before));
    let b = mask.intersect(part);
    assert(a.disjoint(b)) by {
        assert forall|x: u32| !(a.contains(x) && b.contains(x)) by {
            if a.contains(x) && b.contains(x) {
                let k = choose|k: int|
                    0 <= k < before.len() && covers(#[trigger] before[k], x as int);
                assert(own[k].1 <= own[i].0);
            }
        }
    }
    lemma_disjoint_len(a, b);
    assert(mask.intersect(rows_of(after)) =~= a.union(b));
}

/// `[lo, hi)` as a `Range`.
pub fn as_range(s: (u32, u32)) -> (range: Range<u32>)
    ensures
        range.start == s.0,
        range.end == s.1,
{
    s.0..s.1
}

/// The rows and the counts of an artifact are those of one set. As many rows are materialised as
/// are declared, what is counted under a mask is what the mask and the materialised rows share, and
/// an artifact is a candidate exactly where that is any. Past the level there are no rows.
pub proof fn law_the_rows_and_the_count_are_the_same_set(
    sets: RangeSets,
    ordinal: u32,
    mask: Bitmap,
    rows: Bitmap,
    declared: u64,
    masked: u64,
    candidates: Bitmap,
)
    requires
        sets.wf(),
        bits(rows) == sets.members(ordinal as int),
        declared == sets.members(ordinal as int).len(),
        masked == bits(mask).intersect(sets.members(ordinal as int)).len(),
        bits(candidates) == sets.meeting(bits(mask)),
    ensures
        bits(rows).len() == declared,
        bits(mask).intersect(bits(rows)).len() == masked,
        masked <= declared,
        bits(rows).subset_of(bits(mask)) ==> masked == declared,
        bits(candidates).contains(ordinal) <==> masked > 0,
        ordinal >= sets.at@.len() - 1 ==> declared == 0 && masked == 0,
{
    let m = sets.members(ordinal as int);
    let i = bits(mask).intersect(m);
    lemma_finite(m);
    lemma_finite(i);
    vstd::set_lib::lemma_len_subset(i, m);
    if m.subset_of(bits(mask)) {
        assert(i =~= m);
    }
    if i.len() == 0 {
        assert(i =~= Set::empty());
    }
    if ordinal >= sets.at@.len() - 1 {
        assert(m =~= Set::empty());
    }
}

/// An artifact of a built level holds a row exactly where one of its shape's segments has a span
/// that covers the row's distance above the segment's first row. A hole holds no row.
pub proof fn law_a_built_artifact_holds_its_shapes_rows(
    sets: RangeSets,
    shapes: Seq<Shape>,
    i: int,
    row: u32,
)
    requires
        0 <= i < shapes.len(),
        sets.members(i) == shape_rows(shapes[i]),
    ensures
        sets.members(i).contains(row) <==> shapes[i] is Some && exists|k: int, s: int|
            0 <= k < shapes[i]->0@.len() && 0 <= s < shapes[i]->0@[k].spans@.len()
                && shapes[i]->0@[k].row_base + (#[trigger] shapes[i]->0@[k].spans@[s]).0 <= row
                < shapes[i]->0@[k].row_base + shapes[i]->0@[k].spans@[s].1,
{
    if shapes[i] is Some {
        let parts = shapes[i]->0@;
        if exists|k: int| 0 <= k < parts.len() && (#[trigger] parts[k]).holds(row as int) {
            let k = choose|k: int| 0 <= k < parts.len() && (#[trigger] parts[k]).holds(row as int);
            let s = choose|s: int|
                0 <= s < parts[k].spans@.len() && covers(
                    #[trigger] parts[k].spans@[s],
                    row - parts[k].row_base,
                );
            assert(parts[k].row_base + parts[k].spans@[s].0 <= row);
        }
        if exists|k: int, s: int|
            0 <= k < parts.len() && 0 <= s < parts[k].spans@.len() && parts[k].row_base + (
            #[trigger] parts[k].spans@[s]).0 <= row < parts[k].row_base + parts[k].spans@[s].1 {
            let (k, s) = choose|k: int, s: int|
                0 <= k < parts.len() && 0 <= s < parts[k].spans@.len() && parts[k].row_base + (
                #[trigger] parts[k].spans@[s]).0 <= row < parts[k].row_base + parts[k].spans@[s].1;
            assert(covers(parts[k].spans@[s], row - parts[k].row_base));
            assert(parts[k].holds(row as int));
        }
    }
}

/// An artifact holds a row exactly where one of the ranges between its bounds starts at or before
/// the row and ends after it.
pub proof fn law_an_artifact_holds_what_its_ranges_cover(sets: RangeSets, ordinal: int, row: u32)
    requires
        sets.wf(),
        0 <= ordinal < sets.at@.len() - 1,
    ensures
        sets.members(ordinal).contains(row) <==> exists|r: int|
            sets.at@[ordinal] <= r < sets.at@[ordinal + 1] && (#[trigger] sets.ranges@[r]).0 <= row
                < sets.ranges@[r].1,
{
    let own = sets.own(ordinal);
    let lo = sets.at@[ordinal] as int;
    assert(sets.at@[ordinal] <= sets.at@[ordinal + 1]);
    assert(sets.at@[ordinal + 1] <= sets.at@[sets.at@.len() - 1]);
    if sets.members(ordinal).contains(row) {
        let j = choose|j: int| 0 <= j < own.len() && covers(#[trigger] own[j], row as int);
        assert(own[j] == sets.ranges@[lo + j]);
    }
    if exists|r: int|
        sets.at@[ordinal] <= r < sets.at@[ordinal + 1] && (#[trigger] sets.ranges@[r]).0 <= row
            < sets.ranges@[r].1 {
        let r = choose|r: int|
            sets.at@[ordinal] <= r < sets.at@[ordinal + 1] && (#[trigger] sets.ranges@[r]).0 <= row
                < sets.ranges@[r].1;
        assert(own[r - lo] == sets.ranges@[r]);
        assert(covers(own[r - lo], row as int));
    }
}

} // verus!
