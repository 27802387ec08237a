//! Row and entity sets, held as roaring bitmaps.
//!
//! A [`Bitmap`] is opaque here: [`bits`] names the set of integers it holds, and each function of
//! this module states what one operation of the `croaring` crate does to that set.

use croaring::Bitmap;
use vstd::prelude::*;

verus! {

/// [`croaring::Bitmap`].
#[verifier::external_type_specification]
#[verifier::external_body]
pub struct ExBitmap(Bitmap);

/// The integers a bitmap holds.
pub uninterp spec fn bits(bitmap: Bitmap) -> Set<u32>;

/// The integers from `lo` up to, and without, `hi`.
pub open spec fn span(lo: int, hi: int) -> Set<u32> {
    Set::new(|x: u32| lo <= x < hi)
}

/// Strictly ascending.
pub open spec fn ascending(s: Seq<u32>) -> bool {
    forall|i: int, j: int| 0 <= i < j < s.len() ==> s[i] < s[j]
}

/// Every set of `u32`s is finite.
pub proof fn lemma_finite(s: Set<u32>)
    ensures
        s.finite(),
{
    broadcast use vstd::set_lib::full_set_properties;

    vstd::set_lib::lemma_set_subset_finite(Set::<u32>::full(), s);
}

proof fn lemma_below_len(s: Set<u32>, n: nat)
    requires
        n <= 0x1_0000_0000,
        forall|x: u32| #[trigger] s.contains(x) ==> x < n,
    ensures
        s.len() <= n,
    decreases n,
{
    lemma_finite(s);
    if n == 0 {
        assert(s =~= Set::empty());
    } else {
        let top = (n - 1) as u32;
        let rest = s.remove(top);
        lemma_finite(rest);
        assert forall|x: u32| #[trigger] rest.contains(x) implies x < n - 1 by {
            assert(s.contains(x));
        }
        lemma_below_len(rest, (n - 1) as nat);
        if s.contains(top) {
            assert(s =~= rest.insert(top));
        } else {
            assert(s =~= rest);
        }
    }
}

/// No set of `u32`s holds more than there are.
pub proof fn lemma_len_bound(s: Set<u32>)
    ensures
        s.finite(),
        s.len() <= 0x1_0000_0000,
{
    lemma_finite(s);
    lemma_below_len(s, 0x1_0000_0000);
}

/// How many integers a span holds.
pub proof fn lemma_span_len(lo: int, hi: int)
    requires
        0 <= lo <= hi <= 0x1_0000_0000,
    ensures
        span(lo, hi).finite(),
        span(lo, hi).len() == hi - lo,
    decreases hi - lo,
{
    lemma_finite(span(lo, hi));
    if lo == hi {
        assert(span(lo, hi) =~= Set::empty());
    } else {
        lemma_span_len(lo, hi - 1);
        assert(span(lo, hi) =~= span(lo, hi - 1).insert((hi - 1) as u32));
    }
}

/// The parts of disjoint sets add up.
pub proof fn lemma_disjoint_len(a: Set<u32>, b: Set<u32>)
    requires
        a.disjoint(b),
    ensures
        a.union(b).len() == a.len() + b.len(),
{
    lemma_finite(a);
    lemma_finite(b);
    vstd::set_lib::lemma_set_disjoint_lens(a, b);
}

/// `croaring::Bitmap::new`: a bitmap holding nothing.
#[verifier::external_body]
pub(crate) fn empty() -> (bitmap: Bitmap)
    ensures
        bits(bitmap) == Set::<u32>::empty(),
{
    Bitmap::new()
}

/// `croaring::Bitmap::of`: a bitmap holding the listed integers, in whatever order and however
/// often they are listed.
#[verifier::external_body]
pub(crate) fn of(list: &[u32]) -> (bitmap: Bitmap)
    ensures
        bits(bitmap) == list@.to_set(),
{
    Bitmap::of(list)
}

/// `croaring::Bitmap::clone`: a bitmap holding the same integers.
#[verifier::external_body]
pub(crate) fn copy(bitmap: &Bitmap) -> (other: Bitmap)
    ensures
        bits(other) == bits(*bitmap),
{
    bitmap.clone()
}

/// `croaring::Bitmap::add`: the element joins the set.
#[verifier::external_body]
pub(crate) fn insert(bitmap: &mut Bitmap, element: u32)
    ensures
        bits(*final(bitmap)) == bits(*old(bitmap)).insert(element),
{
    bitmap.add(element)
}

/// `croaring::Bitmap::add_range` over an inclusive range: every integer of it joins the set.
#[verifier::external_body]
pub(crate) fn insert_range(bitmap: &mut Bitmap, first: u32, last: u32)
    requires
        first <= last,
    ensures
        bits(*final(bitmap)) == bits(*old(bitmap)).union(span(first as int, last + 1)),
{
    bitmap.add_range(first..=last)
}

/// `croaring::Bitmap::remove_range` over an inclusive range: every integer of it leaves the set.
#[verifier::external_body]
pub(crate) fn remove_range(bitmap: &mut Bitmap, first: u32, last: u32)
    requires
        first <= last,
    ensures
        bits(*final(bitmap)) == bits(*old(bitmap)).difference(span(first as int, last + 1)),
{
    bitmap.remove_range(first..=last)
}

/// `croaring::Bitmap::contains`: whether the set holds the element.
#[verifier::external_body]
pub(crate) fn contains(bitmap: &Bitmap, element: u32) -> (yes: bool)
    ensures
        yes == bits(*bitmap).contains(element),
{
    bitmap.contains(element)
}

/// `croaring::Bitmap::is_empty`: whether the set holds nothing.
#[verifier::external_body]
pub(crate) fn is_empty(bitmap: &Bitmap) -> (yes: bool)
    ensures
        yes == (bits(*bitmap) == Set::<u32>::empty()),
{
    bitmap.is_empty()
}

/// `croaring::Bitmap::cardinality`: how many integers the set holds.
#[verifier::external_body]
pub(crate) fn cardinality(bitmap: &Bitmap) -> (count: u64)
    ensures
        count == bits(*bitmap).len(),
{
    bitmap.cardinality()
}

/// `croaring::Bitmap::range_cardinality` over a half-open range: how many integers of the range
/// the set holds.
#[verifier::external_body]
pub(crate) fn range_cardinality(bitmap: &Bitmap, lo: u32, hi: u32) -> (count: u64)
    ensures
        count == bits(*bitmap).intersect(span(lo as int, hi as int)).len(),
{
    bitmap.range_cardinality(lo..hi)
}

/// `croaring::Bitmap::and_cardinality`: how many integers both sets hold.
#[verifier::external_body]
pub(crate) fn and_cardinality(bitmap: &Bitmap, other: &Bitmap) -> (count: u64)
    ensures
        count == bits(*bitmap).intersect(bits(*other)).len(),
{
    bitmap.and_cardinality(other)
}

/// `croaring::Bitmap::and_inplace`: only what the other set holds too stays.
#[verifier::external_body]
pub(crate) fn intersect_with(bitmap: &mut Bitmap, other: &Bitmap)
    ensures
        bits(*final(bitmap)) == bits(*old(bitmap)).intersect(bits(*other)),
{
    bitmap.and_inplace(other)
}

/// `croaring::Bitmap::or_inplace`: everything the other set holds joins.
#[verifier::external_body]
pub(crate) fn union_with(bitmap: &mut Bitmap, other: &Bitmap)
    ensures
        bits(*final(bitmap)) == bits(*old(bitmap)).union(bits(*other)),
{
    bitmap.or_inplace(other)
}

/// `croaring::Bitmap::run_optimize`: a change of representation, the same set.
#[verifier::external_body]
pub(crate) fn run_optimize(bitmap: &mut Bitmap)
    ensures
        bits(*final(bitmap)) == bits(*old(bitmap)),
{
    bitmap.run_optimize();
}

/// `croaring::Bitmap::rank`: how many integers of the set are at most `element`.
#[verifier::external_body]
pub(crate) fn rank(bitmap: &Bitmap, element: u32) -> (count: u64)
    ensures
        count == bits(*bitmap).intersect(span(0, element + 1)).len(),
{
    bitmap.rank(element)
}

/// `croaring::Bitmap::select`: the integer of the set with `position` others below it, where the
/// set holds more than `position`. Ranks are summed in 32 bits, a container of the set at a time, so
/// of the set that holds every integer nothing is claimed at the positions of its last container.
#[verifier::external_body]
pub(crate) fn select(bitmap: &Bitmap, position: u32) -> (element: Option<u32>)
    ensures
        element is Some ==> position < bits(*bitmap).len(),
        position < bits(*bitmap).len() && (bits(*bitmap).len() <= u32::MAX || position
            < 0xFFFF_0000) ==> element is Some,
        element matches Some(e) ==> bits(*bitmap).contains(e) && bits(*bitmap).intersect(
            span(0, e as int),
        ).len() == position,
{
    bitmap.select(position)
}

/// `croaring::Bitmap::maximum`: the greatest integer of the set, where it holds one.
#[verifier::external_body]
pub(crate) fn maximum(bitmap: &Bitmap) -> (element: Option<u32>)
    ensures
        element is None <==> bits(*bitmap) == Set::<u32>::empty(),
        element matches Some(e) ==> bits(*bitmap).contains(e) && forall|x: u32| #[trigger]
            bits(*bitmap).contains(x) ==> x <= e,
{
    bitmap.maximum()
}

/// `croaring::Bitmap::to_vec`: every element once, ascending.
#[verifier::external_body]
pub(crate) fn elements(bitmap: &Bitmap) -> (list: Vec<u32>)
    ensures
        ascending(list@),
        list@.to_set() == bits(*bitmap),
{
    bitmap.to_vec()
}

} // verus!
