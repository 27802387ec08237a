//! Facts about sequences.

use vstd::prelude::*;

verus! {

/// One more element joins a filtered prefix where it passes.
pub proof fn lemma_filter_step<T>(s: Seq<T>, i: int, p: spec_fn(T) -> bool)
    requires
        0 <= i < s.len(),
    ensures
        s.take(i + 1).filter(p) == if p(s[i]) {
            s.take(i).filter(p).push(s[i])
        } else {
            s.take(i).filter(p)
        },
{
    reveal(Seq::filter);
    assert(s.take(i + 1).drop_last() =~= s.take(i));
    assert(s.take(i + 1).last() == s[i]);
}

/// Nothing is filtered from no elements.
pub proof fn lemma_filter_empty<T>(s: Seq<T>, p: spec_fn(T) -> bool)
    ensures
        s.take(0).filter(p) == Seq::<T>::empty(),
{
    reveal(Seq::filter);
}

/// The whole of a sequence.
pub proof fn lemma_take_all<T>(s: Seq<T>)
    ensures
        s.take(s.len() as int) == s,
{
    assert(s.take(s.len() as int) =~= s);
}

/// What passes a filter is what the sequence holds and the filter admits.
pub proof fn lemma_filter_members<T>(s: Seq<T>, p: spec_fn(T) -> bool, x: T)
    ensures
        s.filter(p).contains(x) == (s.contains(x) && p(x)),
    decreases s.len(),
{
    reveal(Seq::filter);
    if s.len() > 0 {
        let front = s.drop_last();
        lemma_filter_members(front, p, x);
        assert(s =~= front.push(s.last()));
        if front.contains(x) {
            let i = choose|i: int| 0 <= i < front.len() && front[i] == x;
            assert(s[i] == x);
        }
        if s.contains(x) && x != s.last() {
            let i = choose|i: int| 0 <= i < s.len() && s[i] == x;
            assert(front[i] == x);
        }
        if s.last() == x {
            assert(s[s.len() - 1] == x);
        }
        let kept = front.filter(p);
        if p(s.last()) {
            let grown = kept.push(s.last());
            assert(grown[grown.len() - 1] == s.last());
            if kept.contains(x) {
                let i = choose|i: int| 0 <= i < kept.len() && kept[i] == x;
                assert(grown[i] == x);
            }
            if grown.contains(x) && x != s.last() {
                let i = choose|i: int| 0 <= i < grown.len() && grown[i] == x;
                assert(kept[i] == x);
            }
        }
    }
}

/// What `f` gives of the first element that it gives something of.
pub open spec fn first_some<T, E>(s: Seq<T>, f: spec_fn(T) -> Option<E>) -> Option<E>
    decreases s.len(),
{
    if s.len() == 0 {
        None
    } else if first_some(s.drop_last(), f) is Some {
        first_some(s.drop_last(), f)
    } else {
        f(s.last())
    }
}

/// [`first_some`] of one more element.
pub proof fn lemma_first_some_step<T, E>(s: Seq<T>, i: int, f: spec_fn(T) -> Option<E>)
    requires
        0 <= i < s.len(),
    ensures
        first_some(s.take(i + 1), f) == if first_some(s.take(i), f) is Some {
            first_some(s.take(i), f)
        } else {
            f(s[i])
        },
{
    assert(s.take(i + 1).drop_last() =~= s.take(i));
    assert(s.take(i + 1).last() == s[i]);
}

/// What a prefix gives, the whole gives.
pub proof fn lemma_first_some_stays<T, E>(s: Seq<T>, n: int, f: spec_fn(T) -> Option<E>)
    requires
        0 <= n <= s.len(),
        first_some(s.take(n), f) is Some,
    ensures
        first_some(s, f) == first_some(s.take(n), f),
    decreases s.len(),
{
    if n == s.len() {
        assert(s.take(n) =~= s);
    } else {
        assert(s.drop_last().take(n) =~= s.take(n));
        lemma_first_some_stays(s.drop_last(), n, f);
    }
}

/// Where `x` first stands in `s`.
pub open spec fn first_at<T>(s: Seq<T>, x: T) -> Option<int>
    decreases s.len(),
{
    if s.len() == 0 {
        None
    } else {
        match first_at(s.drop_last(), x) {
            Some(i) => Some(i),
            None => if s.last() == x {
                Some(s.len() - 1)
            } else {
                None
            },
        }
    }
}

/// [`first_at`] is the least index that holds `x`.
pub proof fn lemma_first_at<T>(s: Seq<T>, x: T)
    ensures
        first_at(s, x) is Some <==> s.contains(x),
        first_at(s, x) matches Some(i) ==> 0 <= i < s.len() && s[i] == x && forall|j: int|
            0 <= j < i ==> s[j] != x,
    decreases s.len(),
{
    if s.len() > 0 {
        let front = s.drop_last();
        lemma_first_at(front, x);
        if front.contains(x) {
            let i = choose|i: int| 0 <= i < front.len() && front[i] == x;
            assert(s[i] == x);
        }
        if s.contains(x) && !front.contains(x) {
            let i = choose|i: int| 0 <= i < s.len() && s[i] == x;
            assert(i < front.len() ==> front[i] == x);
            assert(s.last() == x);
        }
        if s.last() == x {
            assert(s[s.len() - 1] == x);
        }
        if !front.contains(x) {
            assert forall|j: int| 0 <= j < s.len() - 1 implies s[j] != x by {
                assert(front[j] == s[j]);
            }
        } else {
            let i = first_at(front, x).unwrap();
            assert forall|j: int| 0 <= j < i implies s[j] != x by {
                assert(front[j] == s[j]);
            }
        }
    }
}

/// What stands in `s` stands where it did after more is appended.
pub proof fn lemma_first_at_append<T>(s: Seq<T>, t: Seq<T>, x: T)
    requires
        s.contains(x),
    ensures
        first_at(s + t, x) == first_at(s, x),
    decreases t.len(),
{
    if t.len() == 0 {
        assert(s + t =~= s);
    } else {
        lemma_first_at_append(s, t.drop_last(), x);
        lemma_first_at(s, x);
        assert((s + t).drop_last() =~= s + t.drop_last());
    }
}

/// Filtering what a map gives keeps the images of what passes.
pub proof fn lemma_map_filter<A, B>(s: Seq<A>, f: spec_fn(A) -> B, p: spec_fn(B) -> bool, q: spec_fn(A) -> bool)
    requires
        forall|a: A| p(#[trigger] f(a)) == q(a),
    ensures
        s.map_values(f).filter(p) == s.filter(q).map_values(f),
    decreases s.len(),
{
    reveal(Seq::filter);
    if s.len() == 0 {
        assert(s.map_values(f).filter(p) =~= s.filter(q).map_values(f));
    } else {
        lemma_map_filter(s.drop_last(), f, p, q);
        assert(s.map_values(f).drop_last() =~= s.drop_last().map_values(f));
        assert(s.map_values(f).last() == f(s.last()));
        assert(s.map_values(f).filter(p) =~= s.filter(q).map_values(f));
    }
}

/// Where what a filter keeps stands: each kept item's position, in order.
pub proof fn lemma_filter_positions<T>(s: Seq<T>, p: spec_fn(T) -> bool) -> (at: Seq<int>)
    ensures
        at.len() == s.filter(p).len(),
        forall|i: int, j: int| 0 <= i < j < at.len() ==> at[i] < at[j],
        forall|k: int|
            0 <= k < at.len() ==> 0 <= #[trigger] at[k] < s.len() && s[at[k]] == s.filter(p)[k] && p(
                s[at[k]],
            ),
        forall|e: int| 0 <= e < s.len() && p(#[trigger] s[e]) ==> at.contains(e),
    decreases s.len(),
{
    reveal(Seq::filter);
    if s.len() == 0 {
        Seq::empty()
    } else {
        let front = s.drop_last();
        let before = lemma_filter_positions(front, p);
        let last = s.len() - 1;
        assert forall|k: int| 0 <= k < before.len() implies 0 <= #[trigger] before[k] < last && s[before[k]]
            == front.filter(p)[k] && p(s[before[k]]) by {
            assert(front[before[k]] == s[before[k]]);
        }
        let at = if p(s.last()) {
            before.push(last)
        } else {
            before
        };
        assert forall|e: int| 0 <= e < s.len() && p(#[trigger] s[e]) implies at.contains(e) by {
            if e < last {
                assert(p(front[e]));
                let k = choose|k: int| 0 <= k < before.len() && before[k] == e;
                assert(at[k] == e);
            } else {
                assert(at[at.len() - 1] == e);
            }
        }
        assert forall|k: int| 0 <= k < at.len() implies 0 <= #[trigger] at[k] < s.len() && s[at[k]]
            == s.filter(p)[k] && p(s[at[k]]) by {
            if k < before.len() {
                assert(at[k] == before[k]);
                assert(s.filter(p)[k] == front.filter(p)[k]);
            }
        }
        at
    }
}

/// The first result is that of the first item that has one.
pub proof fn lemma_first_some_at<T, E>(s: Seq<T>, f: spec_fn(T) -> Option<E>) -> (at: int)
    ensures
        first_some(s, f) is Some ==> 0 <= at < s.len() && f(s[at]) == first_some(s, f) && forall|
            j: int,
        | 0 <= j < at ==> f(#[trigger] s[j]) is None,
        first_some(s, f) is None ==> forall|j: int| 0 <= j < s.len() ==> f(#[trigger] s[j]) is None,
    decreases s.len(),
{
    if s.len() == 0 {
        0
    } else {
        let front = s.drop_last();
        let at = lemma_first_some_at(front, f);
        assert(forall|j: int| 0 <= j < front.len() ==> front[j] == #[trigger] s[j]);
        if first_some(front, f) is Some {
            at
        } else {
            s.len() - 1
        }
    }
}

} // verus!
