//! Ordering: a stable merge sort, and the sorted distinct form of a list.

use vstd::prelude::*;

use crate::bitmap::ascending;
use crate::seqs::{lemma_filter_members, lemma_map_filter};

verus! {

/// A total preorder on a type: elements that are each at most the other tie.
pub trait Ranked: Sized {
    spec fn precedes(self, other: Self) -> bool;

    proof fn precedes_total(x: Self, y: Self)
        ensures
            x.precedes(y) || y.precedes(x),
    ;

    proof fn precedes_transitive(x: Self, y: Self, z: Self)
        requires
            x.precedes(y),
            y.precedes(z),
        ensures
            x.precedes(z),
    ;

    fn at_most(&self, other: &Self) -> (yes: bool)
        ensures
            yes == self.precedes(*other),
    ;
}

/// Whether two elements tie.
pub open spec fn ties<T: Ranked>(x: T, y: T) -> bool {
    x.precedes(y) && y.precedes(x)
}

/// Each element is at most every later one.
pub open spec fn sorted<T: Ranked>(s: Seq<T>) -> bool {
    forall|i: int, j: int| 0 <= i < j < s.len() ==> (#[trigger] s[i]).precedes(#[trigger] s[j])
}

/// Each element is below every later one.
pub open spec fn strictly_sorted<T: Ranked>(s: Seq<T>) -> bool {
    forall|i: int, j: int|
        0 <= i < j < s.len() ==> (#[trigger] s[i]).precedes(#[trigger] s[j]) && !s[j].precedes(s[i])
}

/// The elements of `s` that tie with `x`, in the order of `s`.
pub open spec fn tied_with<T: Ranked>(s: Seq<T>, x: T) -> Seq<T> {
    s.filter(|y: T| ties(x, y))
}

/// `to` is `from` sorted, with every group of ties in the order `from` has it in.
pub open spec fn stable_sort_of<T: Ranked>(from: Seq<T>, to: Seq<T>) -> bool {
    &&& sorted(to)
    &&& forall|x: T| #[trigger] tied_with(to, x) == tied_with(from, x)
}

/// `s` sorted, with every group of ties in the order `s` has it in: the one sequence that is.
pub open spec fn stably_sorted<T: Ranked>(s: Seq<T>) -> Seq<T> {
    choose|t: Seq<T>| stable_sort_of(s, t)
}

/// Two sorted sequences merged, the first one's ties before the second one's.
spec fn merged<T: Ranked>(a: Seq<T>, b: Seq<T>) -> Seq<T>
    decreases a.len() + b.len(),
{
    if a.len() == 0 {
        b
    } else if b.len() == 0 {
        a
    } else if a.last().precedes(b.last()) {
        merged(a, b.drop_last()).push(b.last())
    } else {
        merged(a.drop_last(), b).push(a.last())
    }
}

proof fn lemma_merged_bound<T: Ranked>(a: Seq<T>, b: Seq<T>, m: T)
    requires
        forall|i: int| 0 <= i < a.len() ==> (#[trigger] a[i]).precedes(m),
        forall|i: int| 0 <= i < b.len() ==> (#[trigger] b[i]).precedes(m),
    ensures
        forall|i: int| 0 <= i < merged(a, b).len() ==> (#[trigger] merged(a, b)[i]).precedes(m),
    decreases a.len() + b.len(),
{
    if a.len() != 0 && b.len() != 0 {
        assert(a[a.len() - 1].precedes(m) && b[b.len() - 1].precedes(m));
        let inner = if a.last().precedes(b.last()) {
            lemma_merged_bound(a, b.drop_last(), m);
            merged(a, b.drop_last())
        } else {
            lemma_merged_bound(a.drop_last(), b, m);
            merged(a.drop_last(), b)
        };
        assert forall|i: int| 0 <= i < merged(a, b).len() implies (#[trigger] merged(a, b)[i]).precedes(
            m,
        ) by {
            if i < inner.len() {
                assert(merged(a, b)[i] == inner[i]);
            }
        }
    }
}

proof fn lemma_merged_sorted<T: Ranked>(a: Seq<T>, b: Seq<T>)
    requires
        sorted(a),
        sorted(b),
    ensures
        sorted(merged(a, b)),
    decreases a.len() + b.len(),
{
    if a.len() != 0 && b.len() != 0 {
        T::precedes_total(a.last(), b.last());
        T::precedes_total(a.last(), a.last());
        T::precedes_total(b.last(), b.last());
        if a.last().precedes(b.last()) {
            lemma_merged_sorted(a, b.drop_last());
            assert forall|i: int| 0 <= i < a.len() implies (#[trigger] a[i]).precedes(b.last()) by {
                if i < a.len() - 1 {
                    T::precedes_transitive(a[i], a.last(), b.last());
                }
            }
            lemma_merged_bound(a, b.drop_last(), b.last());
        } else {
            lemma_merged_sorted(a.drop_last(), b);
            assert forall|i: int| 0 <= i < b.len() implies (#[trigger] b[i]).precedes(a.last()) by {
                if i < b.len() - 1 {
                    T::precedes_transitive(b[i], b.last(), a.last());
                }
            }
            lemma_merged_bound(a.drop_last(), b, a.last());
        }
    }
}

proof fn lemma_filter_none<T>(s: Seq<T>, p: spec_fn(T) -> bool)
    requires
        forall|i: int| 0 <= i < s.len() ==> !p(#[trigger] s[i]),
    ensures
        s.filter(p) == Seq::<T>::empty(),
    decreases s.len(),
{
    reveal(Seq::filter);
    if s.len() > 0 {
        lemma_filter_none(s.drop_last(), p);
    }
}

/// Pushing an element onto a filtered sequence.
pub proof fn lemma_filter_push<T>(s: Seq<T>, x: T, p: spec_fn(T) -> bool)
    ensures
        s.push(x).filter(p) == if p(x) {
            s.filter(p).push(x)
        } else {
            s.filter(p)
        },
{
    reveal(Seq::filter);
    assert(s.push(x).drop_last() =~= s);
}

proof fn lemma_merged_filter<T: Ranked>(a: Seq<T>, b: Seq<T>, x: T)
    requires
        sorted(a),
        sorted(b),
    ensures
        tied_with(merged(a, b), x) == tied_with(a, x) + tied_with(b, x),
    decreases a.len() + b.len(),
{
    let p = |y: T| ties(x, y);
    if a.len() == 0 {
        reveal(Seq::filter);
        assert(a.filter(p) + b.filter(p) =~= b.filter(p));
    } else if b.len() == 0 {
        reveal(Seq::filter);
        assert(a.filter(p) + b.filter(p) =~= a.filter(p));
    } else if a.last().precedes(b.last()) {
        lemma_merged_filter(a, b.drop_last(), x);
        lemma_filter_push(merged(a, b.drop_last()), b.last(), p);
        lemma_filter_push(b.drop_last(), b.last(), p);
        assert(b.drop_last().push(b.last()) =~= b);
        assert(merged(a, b).filter(p) =~= a.filter(p) + b.filter(p));
    } else {
        lemma_merged_filter(a.drop_last(), b, x);
        lemma_filter_push(merged(a.drop_last(), b), a.last(), p);
        lemma_filter_push(a.drop_last(), a.last(), p);
        assert(a.drop_last().push(a.last()) =~= a);
        if p(a.last()) {
            assert forall|i: int| 0 <= i < b.len() implies !p(#[trigger] b[i]) by {
                if p(b[i]) {
                    T::precedes_transitive(a.last(), x, b[i]);
                    T::precedes_total(b.last(), b.last());
                    T::precedes_transitive(a.last(), b[i], b.last());
                }
            }
            lemma_filter_none(b, p);
        }
        assert(merged(a, b).filter(p) =~= a.filter(p) + b.filter(p));
    }
}

proof fn lemma_tied_last<T: Ranked>(s: Seq<T>, x: T)
    requires
        s.len() > 0,
    ensures
        tied_with(s, x) == if ties(x, s.last()) {
            tied_with(s.drop_last(), x).push(s.last())
        } else {
            tied_with(s.drop_last(), x)
        },
{
    lemma_filter_push(s.drop_last(), s.last(), |y: T| ties(x, y));
    assert(s.drop_last().push(s.last()) =~= s);
}

proof fn lemma_tied_member<T: Ranked>(s: Seq<T>, x: T, i: int)
    requires
        0 <= i < s.len(),
        ties(x, s[i]),
    ensures
        tied_with(s, x).len() > 0,
    decreases s.len(),
{
    lemma_tied_last(s, x);
    if i < s.len() - 1 {
        lemma_tied_member(s.drop_last(), x, i);
    }
}

proof fn lemma_tied_from<T: Ranked>(s: Seq<T>, x: T)
    requires
        tied_with(s, x).len() > 0,
    ensures
        exists|i: int| 0 <= i < s.len() && ties(x, #[trigger] s[i]),
    decreases s.len(),
{
    if s.len() == 0 {
        lemma_filter_none(s, |y: T| ties(x, y));
    } else {
        lemma_tied_last(s, x);
        if !ties(x, s.last()) {
            lemma_tied_from(s.drop_last(), x);
            let i = choose|i: int|
                0 <= i < s.drop_last().len() && ties(x, #[trigger] s.drop_last()[i]);
            assert(ties(x, s[i]));
        } else {
            assert(ties(x, s[s.len() - 1]));
        }
    }
}

/// Sorted sequences with the same groups of ties are equal.
proof fn lemma_sort_is_unique<T: Ranked>(a: Seq<T>, b: Seq<T>)
    requires
        sorted(a),
        sorted(b),
        forall|x: T| #[trigger] tied_with(a, x) == tied_with(b, x),
    ensures
        a == b,
    decreases a.len(),
{
    if a.len() == 0 || b.len() == 0 {
        if b.len() > 0 {
            T::precedes_total(b[0], b[0]);
            lemma_tied_member(b, b[0], 0);
            assert(tied_with(a, b[0]) == tied_with(b, b[0]));
            lemma_tied_from(a, b[0]);
        }
        if a.len() > 0 {
            T::precedes_total(a[0], a[0]);
            lemma_tied_member(a, a[0], 0);
            assert(tied_with(a, a[0]) == tied_with(b, a[0]));
            lemma_tied_from(b, a[0]);
        }
        assert(a =~= b);
    } else {
        let la = a.last();
        let lb = b.last();
        T::precedes_total(la, la);
        T::precedes_total(lb, lb);
        assert(tied_with(a, la) == tied_with(b, la));
        assert(tied_with(a, lb) == tied_with(b, lb));
        lemma_tied_last(a, la);
        lemma_tied_last(b, lb);
        lemma_tied_from(b, la);
        lemma_tied_from(a, lb);
        let i = choose|i: int| 0 <= i < b.len() && ties(la, #[trigger] b[i]);
        let j = choose|j: int| 0 <= j < a.len() && ties(lb, #[trigger] a[j]);
        assert(b[i].precedes(lb));
        assert(a[j].precedes(la));
        T::precedes_transitive(la, b[i], lb);
        T::precedes_transitive(lb, a[j], la);
        lemma_tied_last(b, la);
        assert(tied_with(a, la).last() == la);
        assert(tied_with(b, la).last() == lb);
        assert forall|x: T| #[trigger]
            tied_with(a.drop_last(), x) == tied_with(b.drop_last(), x) by {
            lemma_tied_last(a, x);
            lemma_tied_last(b, x);
            assert(tied_with(a, x) == tied_with(b, x));
            if ties(x, la) {
                assert(tied_with(a.drop_last(), x) =~= tied_with(a, x).drop_last());
                assert(tied_with(b.drop_last(), x) =~= tied_with(b, x).drop_last());
            }
        }
        lemma_sort_is_unique(a.drop_last(), b.drop_last());
        assert(a =~= a.drop_last().push(la));
        assert(b =~= b.drop_last().push(lb));
    }
}

proof fn lemma_sort_exists<T: Ranked>(s: Seq<T>)
    ensures
        exists|t: Seq<T>| stable_sort_of(s, t),
    decreases s.len(),
{
    if s.len() == 0 {
        assert(stable_sort_of(s, s));
    } else {
        lemma_sort_exists(s.drop_last());
        let front = choose|t: Seq<T>| stable_sort_of(s.drop_last(), t);
        let one = seq![s.last()];
        let t = merged(front, one);
        lemma_merged_sorted(front, one);
        assert forall|x: T| #[trigger] tied_with(t, x) == tied_with(s, x) by {
            lemma_merged_filter(front, one, x);
            lemma_tied_last(s, x);
            assert(tied_with(front, x) == tied_with(s.drop_last(), x));
            lemma_tied_last(one, x);
            assert(one.drop_last() =~= Seq::<T>::empty());
            lemma_filter_none(one.drop_last(), |y: T| ties(x, y));
            assert(tied_with(t, x) =~= tied_with(s, x));
        }
        assert(stable_sort_of(s, t));
    }
}

/// The sorted form is a stable sort, and the only one.
pub proof fn lemma_stably_sorted<T: Ranked>(s: Seq<T>)
    ensures
        stable_sort_of(s, stably_sorted(s)),
        forall|t: Seq<T>| stable_sort_of(s, t) ==> t == stably_sorted(s),
{
    lemma_sort_exists(s);
    assert forall|t: Seq<T>| stable_sort_of(s, t) implies t == stably_sorted(s) by {
        let u = stably_sorted(s);
        assert forall|x: T| #[trigger] tied_with(t, x) == tied_with(u, x) by {
            assert(tied_with(t, x) == tied_with(s, x));
            assert(tied_with(u, x) == tied_with(s, x));
        }
        lemma_sort_is_unique(t, u);
    }
}

/// Sorting commutes with a map that keeps the order.
pub proof fn lemma_sorted_map<A: Ranked, B: Ranked>(s: Seq<A>, f: spec_fn(A) -> B)
    requires
        forall|a: A, b: A| #[trigger] f(a).precedes(#[trigger] f(b)) == a.precedes(b),
    ensures
        stably_sorted(s).map_values(f) == stably_sorted(s.map_values(f)),
{
    let t = stably_sorted(s);
    lemma_stably_sorted(s);
    assert forall|i: int, j: int| 0 <= i < j < t.len() implies (
    #[trigger] t.map_values(f)[i]).precedes(#[trigger] t.map_values(f)[j]) by {
        assert(t[i].precedes(t[j]));
    }
    assert forall|x: B| #[trigger]
        tied_with(t.map_values(f), x) == tied_with(s.map_values(f), x) by {
        let p = |z: B| ties(x, z);
        if exists|y: A| ties(x, #[trigger] f(y)) {
            let y = choose|y: A| ties(x, #[trigger] f(y));
            let q = |z: A| ties(y, z);
            assert forall|a: A| p(#[trigger] f(a)) == q(a) by {
                if p(f(a)) {
                    B::precedes_transitive(f(y), x, f(a));
                    B::precedes_transitive(f(a), x, f(y));
                }
                if q(a) {
                    assert(f(y).precedes(f(a)) && f(a).precedes(f(y)));
                    B::precedes_transitive(x, f(y), f(a));
                    B::precedes_transitive(f(a), f(y), x);
                }
            }
            lemma_map_filter(t, f, p, q);
            lemma_map_filter(s, f, p, q);
            assert(tied_with(t, y) == tied_with(s, y));
        } else {
            assert forall|i: int| 0 <= i < t.len() implies !p(#[trigger] t.map_values(f)[i]) by {
                assert(!ties(x, f(t[i])));
            }
            assert forall|i: int| 0 <= i < s.len() implies !p(#[trigger] s.map_values(f)[i]) by {
                assert(!ties(x, f(s[i])));
            }
            lemma_filter_none(t.map_values(f), p);
            lemma_filter_none(s.map_values(f), p);
        }
    }
    assert(stable_sort_of(s.map_values(f), t.map_values(f)));
    lemma_stably_sorted(s.map_values(f));
}

/// A sorted form holds what the sequence holds.
pub proof fn lemma_sorted_members<T: Ranked>(s: Seq<T>, x: T)
    ensures
        stably_sorted(s).contains(x) == s.contains(x),
{
    lemma_stably_sorted(s);
    let t = stably_sorted(s);
    T::precedes_total(x, x);
    assert(tied_with(t, x) == tied_with(s, x));
    lemma_filter_members(s, |y: T| ties(x, y), x);
    lemma_filter_members(t, |y: T| ties(x, y), x);
}

/// The same elements, last first.
pub fn reversed<T>(v: Vec<T>) -> (out: Vec<T>)
    ensures
        out@ == v@.reverse(),
{
    let ghost whole = v@;
    let mut rest = v;
    let mut out: Vec<T> = Vec::new();
    while rest.len() > 0
        invariant
            whole == rest@ + out@.reverse(),
        decreases rest.len(),
    {
        let ghost before = rest@;
        let ghost taken = out@;
        if let Some(x) = rest.pop() {
            out.push(x);
            proof {
                assert(out@.reverse() =~= seq![x] + taken.reverse());
                assert(before =~= rest@.push(x));
                assert(whole =~= rest@ + out@.reverse());
            }
        }
    }
    assert(out@ =~= whole.reverse());
    out
}

fn merge<T: Ranked>(a: Vec<T>, b: Vec<T>) -> (out: Vec<T>)
    ensures
        out@ == merged(a@, b@),
{
    let ghost whole = merged(a@, b@);
    let mut a = a;
    let mut b = b;
    let mut back: Vec<T> = Vec::new();
    while a.len() > 0 || b.len() > 0
        invariant
            whole == merged(a@, b@) + back@.reverse(),
        decreases a.len() + b.len(),
    {
        let ghost a0 = a@;
        let ghost b0 = b@;
        let ghost taken = back@;
        let from_b: bool = if a.len() == 0 {
            true
        } else if b.len() == 0 {
            false
        } else {
            a[a.len() - 1].at_most(&b[b.len() - 1])
        };
        let next = if from_b {
            b.pop()
        } else {
            a.pop()
        };
        if let Some(x) = next {
            back.push(x);
            proof {
                assert(back@.reverse() =~= seq![x] + taken.reverse());
                assert(merged(a0, b0) =~= merged(a@, b@).push(x)) by {
                    if a0.len() == 0 {
                        assert(b0 =~= b@.push(x));
                    } else if b0.len() == 0 {
                        assert(a0 =~= a@.push(x));
                    } else if from_b {
                        assert(b@ =~= b0.drop_last());
                    } else {
                        assert(a@ =~= a0.drop_last());
                    }
                }
                assert(whole =~= merged(a@, b@) + back@.reverse());
            }
        }
    }
    let out = reversed(back);
    assert(out@ =~= whole);
    out
}

/// `v` sorted, ties kept in the order they had.
pub fn stable_sort<T: Ranked>(v: Vec<T>) -> (out: Vec<T>)
    ensures
        out@ == stably_sorted(v@),
        sorted(out@),
        out@.len() == v@.len(),
        out@.to_multiset() == v@.to_multiset(),
    decreases v.len(),
{
    broadcast use vstd::seq_lib::group_to_multiset_ensures;

    if v.len() <= 1 {
        proof {
            assert(stable_sort_of(v@, v@));
            lemma_stably_sorted(v@);
        }
        return v;
    }
    let ghost whole = v@;
    let mut left = v;
    let half: usize = left.len() / 2;
    let right = left.split_off(half);
    let ghost l = left@;
    let ghost r = right@;
    assert(whole =~= l + r);
    let a = stable_sort(left);
    let b = stable_sort(right);
    let out = merge(a, b);
    proof {
        lemma_merged_sorted(a@, b@);
        lemma_merged_multiset(a@, b@);
        vstd::seq_lib::lemma_multiset_commutative(l, r);
        assert forall|x: T| #[trigger] tied_with(out@, x) == tied_with(whole, x) by {
            lemma_merged_filter(a@, b@, x);
            Seq::filter_distributes_over_add(l, r, |y: T| ties(x, y));
            lemma_stably_sorted(l);
            lemma_stably_sorted(r);
            assert(tied_with(a@, x) == tied_with(l, x));
            assert(tied_with(b@, x) == tied_with(r, x));
        }
        assert(stable_sort_of(whole, out@));
        lemma_stably_sorted(whole);
    }
    out
}

proof fn lemma_merged_multiset<T: Ranked>(a: Seq<T>, b: Seq<T>)
    ensures
        merged(a, b).len() == a.len() + b.len(),
        merged(a, b).to_multiset() =~= a.to_multiset().add(b.to_multiset()),
    decreases a.len() + b.len(),
{
    broadcast use vstd::seq_lib::group_to_multiset_ensures;

    if a.len() == 0 {
        assert(a =~= Seq::empty());
    } else if b.len() == 0 {
        assert(b =~= Seq::empty());
    } else if a.last().precedes(b.last()) {
        lemma_merged_multiset(a, b.drop_last());
        assert(b.drop_last().push(b.last()) =~= b);
    } else {
        lemma_merged_multiset(a.drop_last(), b);
        assert(a.drop_last().push(a.last()) =~= a);
    }
}

/// Whether some element of `s` ties with `x`.
pub open spec fn holds_tie<T: Ranked>(s: Seq<T>, x: T) -> bool {
    exists|i: int| 0 <= i < s.len() && ties(#[trigger] s[i], x)
}

/// The first element of every group of ties of a sorted list.
fn first_of_ties<T: Ranked>(v: Vec<T>) -> (out: Vec<T>)
    requires
        sorted(v@),
    ensures
        strictly_sorted(out@),
        forall|i: int| 0 <= i < out@.len() ==> v@.contains(#[trigger] out@[i]),
        forall|i: int| 0 <= i < v@.len() ==> holds_tie(out@, #[trigger] v@[i]),
{
    let ghost whole = v@;
    let mut rest = v;
    let mut back: Vec<T> = Vec::new();
    while rest.len() > 0
        invariant
            rest@.len() <= whole.len(),
            rest@ == whole.take(rest@.len() as int),
            sorted(whole),
            strictly_sorted(back@.reverse()),
            forall|i: int| 0 <= i < back@.len() ==> whole.contains(#[trigger] back@[i]),
            forall|i: int| rest@.len() <= i < whole.len() ==> holds_tie(back@, #[trigger] whole[i])
                || (rest@.len() > 0 && ties(rest@.last(), whole[i])),
            forall|i: int, j: int|
                0 <= i < rest@.len() && 0 <= j < back@.len() ==> (#[trigger] rest@[i]).precedes(
                    #[trigger] back@[j],
                ) && !back@[j].precedes(rest@[i]),
        decreases rest.len(),
    {
        let ghost rest0 = rest@;
        let ghost back0 = back@;
        if let Some(x) = rest.pop() {
            let again: bool = if rest.len() > 0 {
                x.at_most(&rest[rest.len() - 1])
            } else {
                false
            };
            proof {
                assert(rest@ =~= whole.take(rest@.len() as int));
                assert(x == whole[rest@.len() as int]);
                assert(rest0[rest@.len() as int] == x);
                T::precedes_total(x, x);
            }
            if !again {
                back.push(x);
                proof {
                    assert(back@.reverse() =~= seq![x] + back0.reverse());
                    assert(back@[back@.len() - 1] == x);
                    assert forall|i: int, j: int| 0 <= i < j < back@.len() implies (
                    #[trigger] back@.reverse()[i]).precedes(#[trigger] back@.reverse()[j])
                        && !back@.reverse()[j].precedes(back@.reverse()[i]) by {
                        if i == 0 {
                            assert(back@.reverse()[j] == back0[back0.len() - j]);
                        } else {
                            assert(back@.reverse()[i] == back0.reverse()[i - 1]);
                            assert(back@.reverse()[j] == back0.reverse()[j - 1]);
                        }
                    }
                    assert forall|i: int| rest@.len() <= i < whole.len() implies holds_tie(
                        back@,
                        #[trigger] whole[i],
                    ) by {
                        if i == rest@.len() {
                            assert(ties(back@[back@.len() - 1], whole[i]));
                        } else if holds_tie(back0, whole[i]) {
                            let k = choose|k: int|
                                0 <= k < back0.len() && ties(#[trigger] back0[k], whole[i]);
                            assert(ties(back@[k], whole[i]));
                        } else {
                            assert(ties(back@[back@.len() - 1], whole[i]));
                        }
                    }
                    assert forall|i: int, j: int|
                        0 <= i < rest@.len() && 0 <= j < back@.len() implies (
                    #[trigger] rest@[i]).precedes(#[trigger] back@[j]) && !back@[j].precedes(rest@[i]) by {
                        assert(rest@[i] == rest0[i]);
                        if j == back@.len() - 1 {
                            assert(whole[i].precedes(x));
                            if x.precedes(rest@[i]) {
                                let last = rest@.len() - 1;
                                T::precedes_total(rest@[i], rest@[i]);
                                assert(whole[i].precedes(whole[last]));
                                T::precedes_transitive(x, rest@[i], rest@[last]);
                            }
                        } else {
                            assert(back@[j] == back0[j]);
                        }
                    }
                }
            } else {
                proof {
                    let last = rest@.len() - 1;
                    assert(whole[last].precedes(x));
                    assert forall|i: int| rest@.len() <= i < whole.len() implies holds_tie(
                        back@,
                        #[trigger] whole[i],
                    ) || ties(rest@.last(), whole[i]) by {
                        if i != rest@.len() && !holds_tie(back0, whole[i]) {
                            T::precedes_transitive(rest@.last(), x, whole[i]);
                            T::precedes_transitive(whole[i], x, rest@.last());
                        }
                    }
                }
            }
        }
    }
    let ghost kept = back@;
    let out = reversed(back);
    proof {
        assert forall|i: int| 0 <= i < whole.len() implies holds_tie(out@, #[trigger] whole[i]) by {
            let k = choose|k: int| 0 <= k < kept.len() && ties(#[trigger] kept[k], whole[i]);
            assert(out@[kept.len() - 1 - k] == kept[k]);
        }
    }
    out
}

/// `v` sorted, with one element kept of every group of ties.
pub fn sorted_distinct<T: Ranked>(v: Vec<T>) -> (out: Vec<T>)
    ensures
        strictly_sorted(out@),
        forall|i: int| 0 <= i < out@.len() ==> v@.contains(#[trigger] out@[i]),
        forall|i: int| 0 <= i < v@.len() ==> holds_tie(out@, #[trigger] v@[i]),
{
    let ghost whole = v@;
    let s = stable_sort(v);
    let ghost ordered = s@;
    let out = first_of_ties(s);
    proof {
        assert forall|x: T| #[trigger] whole.contains(x) == ordered.contains(x) by {
            broadcast use vstd::seq_lib::group_to_multiset_ensures;

            assert(whole.to_multiset().count(x) == ordered.to_multiset().count(x));
        }
        assert forall|i: int| 0 <= i < whole.len() implies holds_tie(out@, #[trigger] whole[i]) by {
            assert(whole.contains(whole[i]));
            let k = choose|k: int| 0 <= k < ordered.len() && ordered[k] == whole[i];
            assert(holds_tie(out@, ordered[k]));
        }
    }
    out
}

/// Where the element that ties with `x` stands, by binary search.
pub fn search<T: Ranked>(list: &Vec<T>, x: &T) -> (at: Option<usize>)
    requires
        strictly_sorted(list@),
    ensures
        at matches Some(i) ==> i < list@.len() && ties(list@[i as int], *x),
        at is None <==> !holds_tie(list@, *x),
{
    let mut lo: usize = 0;
    let mut hi: usize = list.len();
    while lo < hi
        invariant
            lo <= hi <= list@.len(),
            strictly_sorted(list@),
            forall|k: int| 0 <= k < lo ==> !x.precedes(#[trigger] list@[k]),
            forall|k: int| hi <= k < list@.len() ==> x.precedes(#[trigger] list@[k]),
        decreases hi - lo,
    {
        let mid: usize = lo + (hi - lo) / 2;
        if x.at_most(&list[mid]) {
            proof {
                assert forall|k: int| mid <= k < list@.len() implies x.precedes(
                    #[trigger] list@[k],
                ) by {
                    if k > mid {
                        T::precedes_transitive(*x, list@[mid as int], list@[k]);
                    }
                }
            }
            hi = mid;
        } else {
            proof {
                assert forall|k: int| 0 <= k <= mid implies !x.precedes(#[trigger] list@[k]) by {
                    if k < mid && x.precedes(list@[k]) {
                        T::precedes_transitive(*x, list@[k], list@[mid as int]);
                    }
                }
            }
            lo = mid + 1;
        }
    }
    if lo < list.len() && list[lo].at_most(x) {
        assert(ties(list@[lo as int], *x));
        return Some(lo);
    }
    proof {
        if holds_tie(list@, *x) {
            let k = choose|k: int| 0 <= k < list@.len() && ties(#[trigger] list@[k], *x);
            if k > lo {
                T::precedes_transitive(list@[k], *x, list@[lo as int]);
            }
        }
    }
    None
}

impl Ranked for u32 {
    open spec fn precedes(self, other: Self) -> bool {
        self <= other
    }

    proof fn precedes_total(x: Self, y: Self) {
    }

    proof fn precedes_transitive(x: Self, y: Self, z: Self) {
    }

    fn at_most(&self, other: &Self) -> (yes: bool) {
        *self <= *other
    }
}

impl Ranked for u64 {
    open spec fn precedes(self, other: Self) -> bool {
        self <= other
    }

    proof fn precedes_total(x: Self, y: Self) {
    }

    proof fn precedes_transitive(x: Self, y: Self, z: Self) {
    }

    fn at_most(&self, other: &Self) -> (yes: bool) {
        *self <= *other
    }
}

/// Pairs in the order of their first component, then their second.
impl Ranked for (u32, u32) {
    open spec fn precedes(self, other: Self) -> bool {
        self.0 < other.0 || (self.0 == other.0 && self.1 <= other.1)
    }

    proof fn precedes_total(x: Self, y: Self) {
    }

    proof fn precedes_transitive(x: Self, y: Self, z: Self) {
    }

    fn at_most(&self, other: &Self) -> (yes: bool) {
        self.0 < other.0 || (self.0 == other.0 && self.1 <= other.1)
    }
}

/// Keyed values in the order of their keys.
impl<T> Ranked for (u64, T) {
    open spec fn precedes(self, other: Self) -> bool {
        self.0 <= other.0
    }

    proof fn precedes_total(x: Self, y: Self) {
    }

    proof fn precedes_transitive(x: Self, y: Self, z: Self) {
    }

    fn at_most(&self, other: &Self) -> (yes: bool) {
        self.0 <= other.0
    }
}

/// Borrowed keyed values in the order of their keys.
impl<'a, T> Ranked for &'a (u64, T) {
    open spec fn precedes(self, other: Self) -> bool {
        self.0 <= other.0
    }

    proof fn precedes_total(x: Self, y: Self) {
    }

    proof fn precedes_transitive(x: Self, y: Self, z: Self) {
    }

    fn at_most(&self, other: &Self) -> (yes: bool) {
        self.0 <= other.0
    }
}

/// Entities with their lists, in the order of the entities.
impl Ranked for (u32, Vec<u32>) {
    open spec fn precedes(self, other: Self) -> bool {
        self.0 <= other.0
    }

    proof fn precedes_total(x: Self, y: Self) {
    }

    proof fn precedes_transitive(x: Self, y: Self, z: Self) {
    }

    fn at_most(&self, other: &Self) -> (yes: bool) {
        self.0 <= other.0
    }
}

/// The distinct values of a sequence, ascending: the one sequence of them that is.
pub open spec fn distinct(s: Seq<u32>) -> Seq<u32> {
    choose|t: Seq<u32>| ascending(t) && #[trigger] t.to_set() == s.to_set()
}

/// Ascending sequences that hold the same values are equal.
pub proof fn lemma_ascending_is_unique(a: Seq<u32>, b: Seq<u32>)
    requires
        ascending(a),
        ascending(b),
        a.to_set() == b.to_set(),
    ensures
        a == b,
    decreases a.len(),
{
    if a.len() == 0 || b.len() == 0 {
        if a.len() > 0 {
            assert(a.to_set().contains(a[0]));
        }
        if b.len() > 0 {
            assert(b.to_set().contains(b[0]));
        }
        assert(a =~= b);
    } else {
        let x = a.last();
        let y = b.last();
        assert(a.to_set().contains(x) && b.to_set().contains(y));
        assert(b.contains(x) && a.contains(y));
        assert(x == y);
        assert forall|z: u32| a.drop_last().to_set().contains(z) == b.drop_last().to_set().contains(
            z,
        ) by {
            assert(a.to_set().contains(z) == b.to_set().contains(z));
            if a.drop_last().contains(z) {
                let i = choose|i: int| 0 <= i < a.drop_last().len() && a.drop_last()[i] == z;
                assert(a[i] == z && z < x);
                assert(a.to_set().contains(z));
                assert(b.to_set().contains(z) && b.contains(z));
                let j = choose|j: int| 0 <= j < b.len() && b[j] == z;
                assert(b.drop_last()[j] == z);
            }
            if b.drop_last().contains(z) {
                let i = choose|i: int| 0 <= i < b.drop_last().len() && b.drop_last()[i] == z;
                assert(b[i] == z && z < x);
                assert(b.to_set().contains(z));
                assert(a.to_set().contains(z) && a.contains(z));
                let j = choose|j: int| 0 <= j < a.len() && a[j] == z;
                assert(a.drop_last()[j] == z);
            }
        }
        assert(a.drop_last().to_set() =~= b.drop_last().to_set());
        lemma_ascending_is_unique(a.drop_last(), b.drop_last());
        assert(a =~= a.drop_last().push(x));
        assert(b =~= b.drop_last().push(y));
    }
}

/// The distinct values of a list, ascending.
pub fn sorted_distinct_u32(v: Vec<u32>) -> (out: Vec<u32>)
    ensures
        out@ == distinct(v@),
        ascending(out@),
        out@.to_set() == v@.to_set(),
{
    let ghost whole = v@;
    let out = sorted_distinct(v);
    proof {
        assert forall|i: int, j: int| 0 <= i < j < out@.len() implies out@[i] < out@[j] by {
            assert(out@[i].precedes(out@[j]) && !out@[j].precedes(out@[i]));
        }
        assert forall|x: u32| out@.to_set().contains(x) == whole.to_set().contains(x) by {
            if whole.contains(x) {
                let k = choose|k: int| 0 <= k < whole.len() && whole[k] == x;
                assert(holds_tie(out@, whole[k]));
                let i = choose|i: int| 0 <= i < out@.len() && ties(#[trigger] out@[i], x);
                assert(out@[i] == x);
            }
        }
        assert(out@.to_set() =~= whole.to_set());
        lemma_ascending_is_unique(out@, distinct(whole));
    }
    out
}

} // verus!
