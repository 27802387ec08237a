//! Sets of rows as ascending runs.

use croaring::Bitmap;
use vstd::prelude::*;

use crate::bitmap;
use crate::bitmap::{ascending, bits, span};

verus! {

/// Whether a run covers `x`: the run is half open.
pub open spec fn covers(run: (u32, u32), x: int) -> bool {
    run.0 <= x < run.1
}

/// Whether some run covers `x`.
pub open spec fn covered(runs: Seq<(u32, u32)>, x: int) -> bool {
    exists|i: int| 0 <= i < runs.len() && covers(#[trigger] runs[i], x)
}

/// No run is empty, and each ends before the next one starts, with a gap between them.
pub open spec fn apart(runs: Seq<(u32, u32)>) -> bool {
    &&& forall|i: int| 0 <= i < runs.len() ==> (#[trigger] runs[i]).0 < runs[i].1
    &&& forall|i: int, j: int|
        0 <= i < j < runs.len() ==> (#[trigger] runs[i]).1 < (#[trigger] runs[j]).0
}

/// The rows that the runs cover.
pub open spec fn rows_of(runs: Seq<(u32, u32)>) -> Set<u32> {
    Set::new(|x: u32| covered(runs, x as int))
}

/// The maximal runs of the mask's rows from `lo` up to, and without, `hi`.
pub fn visible_runs(mask: &Bitmap, lo: u32, hi: u32) -> (runs: Vec<(u32, u32)>)
    requires
        lo <= hi,
    ensures
        apart(runs@),
        rows_of(runs@) == bits(*mask).intersect(span(lo as int, hi as int)),
        forall|i: int| 0 <= i < runs@.len() ==> lo <= (#[trigger] runs@[i]).0 && runs@[i].1 <= hi,
{
    let mut runs: Vec<(u32, u32)> = Vec::new();
    if lo == hi {
        proof {
            assert(rows_of(runs@) =~= bits(*mask).intersect(span(lo as int, hi as int)));
        }
        return runs;
    }
    let mut window = bitmap::empty();
    bitmap::insert_range(&mut window, lo, hi - 1);
    bitmap::intersect_with(&mut window, mask);
    let rows = bitmap::elements(&window);
    let ghost admitted = bits(*mask).intersect(span(lo as int, hi as int));
    proof {
        assert(bits(window) =~= admitted);
        assert forall|k: int| 0 <= k < rows@.len() implies lo <= (#[trigger] rows@[k]) < hi by {
            assert(rows@.contains(rows@[k]));
            assert(rows@.to_set().contains(rows@[k]));
            assert(admitted.contains(rows@[k]));
        }
    }
    let mut k: usize = 0;
    while k < rows.len()
        invariant
            k <= rows@.len(),
            ascending(rows@),
            apart(runs@),
            forall|i: int| 0 <= i < rows@.len() ==> lo <= (#[trigger] rows@[i]) < hi,
            forall|i: int|
                0 <= i < runs@.len() ==> lo <= (#[trigger] runs@[i]).0 && runs@[i].1 <= hi,
            forall|x: int| #[trigger]
                covered(runs@, x) <==> exists|n: int| 0 <= n < k && #[trigger] rows@[n] == x,
            runs@.len() > 0 ==> k > 0 && runs@.last().1 == rows@[k - 1] + 1,
            runs@.len() == 0 ==> k == 0,
        decreases rows@.len() - k,
    {
        let row: u32 = rows[k];
        let ghost before = runs@;
        let ghost n0 = k as int;
        if runs.len() > 0 && runs[runs.len() - 1].1 == row {
            let last: usize = runs.len() - 1;
            let start: u32 = runs[last].0;
            runs.set(last, (start, row + 1));
            proof {
                assert forall|x: int| #[trigger] covered(runs@, x) <==> covered(before, x)
                    || x == row by {
                    if covered(before, x) {
                        let i = choose|i: int|
                            0 <= i < before.len() && covers(#[trigger] before[i], x);
                        assert(covers(runs@[i], x));
                    }
                    if x == row {
                        assert(covers(runs@[last as int], x));
                    }
                    if covered(runs@, x) {
                        let i = choose|i: int| 0 <= i < runs@.len() && covers(#[trigger] runs@[i], x);
                        if i != last || x != row {
                            assert(covers(before[i], x));
                        }
                    }
                }
            }
        } else {
            runs.push((row, row + 1));
            proof {
                if before.len() > 0 {
                    assert(rows@[k - 1] < rows@[k as int]);
                    assert forall|i: int| 0 <= i < before.len() implies (#[trigger] before[i]).1
                        < row by {
                        if i < before.len() - 1 {
                            assert(before[i].1 < before[before.len() - 1].0);
                        }
                    }
                }
                assert forall|x: int| #[trigger] covered(runs@, x) <==> covered(before, x)
                    || x == row by {
                    if covered(before, x) {
                        let i = choose|i: int|
                            0 <= i < before.len() && covers(#[trigger] before[i], x);
                        assert(covers(runs@[i], x));
                    }
                    if x == row {
                        assert(covers(runs@[before.len() as int], x));
                    }
                    if covered(runs@, x) {
                        let i = choose|i: int| 0 <= i < runs@.len() && covers(#[trigger] runs@[i], x);
                        if i < before.len() {
                            assert(covers(before[i], x));
                        }
                    }
                }
            }
        }
        k += 1;
        proof {
            assert forall|x: int| #[trigger] covered(runs@, x) <==> exists|n: int|
                0 <= n < k && #[trigger] rows@[n] == x by {
                if covered(before, x) {
                    let n = choose|n: int| 0 <= n < n0 && #[trigger] rows@[n] == x;
                    assert(rows@[n] == x);
                }
                if x == row {
                    assert(rows@[n0] == x);
                }
                if exists|n: int| 0 <= n < k && #[trigger] rows@[n] == x {
                    let n = choose|n: int| 0 <= n < k && #[trigger] rows@[n] == x;
                    if n < n0 {
                        assert(covered(before, x));
                    }
                }
            }
        }
    }
    proof {
        assert forall|x: u32| rows_of(runs@).contains(x) == admitted.contains(x) by {
            assert(rows@.to_set().contains(x) == rows@.contains(x));
            if covered(runs@, x as int) {
                let n = choose|n: int| 0 <= n < k && #[trigger] rows@[n] == x;
                assert(rows@.contains(x));
            }
            if rows@.contains(x) {
                let n = choose|n: int| 0 <= n < rows@.len() && rows@[n] == x;
                assert(rows@[n] == x);
            }
        }
        assert(rows_of(runs@) =~= admitted);
    }
    runs
}

} // verus!
