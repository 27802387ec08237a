//! A cache bounded in bytes that lets go of what was touched longest ago.

use vstd::prelude::*;

verus! {

/// What a cache is keyed by: two keys are one where their models are equal.
pub trait CacheKey: Sized {
    type Model;

    spec fn model(&self) -> Self::Model;

    fn same_key(&self, other: &Self) -> (yes: bool)
        ensures
            yes == (self.model() == other.model()),
    ;
}

/// One resident value.
pub struct Slot<K, V> {
    pub key: K,
    pub value: V,
    pub weight: u64,
    /// When it was last asked for, on the cache's own clock.
    pub touched: u64,
}

/// The cache.
pub struct Lru<K, V> {
    pub slots: Vec<Slot<K, V>>,
    /// The weight of every slot together.
    pub resident: u64,
    pub clock: u64,
    pub bound: u64,
    pub evictions: u64,
}

/// A count after `more` was counted. It starts over past the last `u64`.
pub open spec fn counted_by(count: u64, more: int) -> int {
    (count + more) % 0x1_0000_0000_0000_0000
}

/// One more than a count, which starts over past the last `u64`.
pub fn count_one(count: u64) -> (more: u64)
    ensures
        more == counted_by(count, 1),
{
    count.wrapping_add(1)
}

/// The weight of every slot together.
pub open spec fn total<K, V>(slots: Seq<Slot<K, V>>) -> int
    decreases slots.len(),
{
    if slots.len() == 0 {
        0
    } else {
        total(slots.drop_last()) + slots.last().weight
    }
}

/// Whether a slot was touched before every other.
pub open spec fn is_oldest<K, V>(slots: Seq<Slot<K, V>>, i: int) -> bool {
    &&& 0 <= i < slots.len()
    &&& forall|j: int|
        0 <= j < slots.len() && j != i ==> slots[i].touched < (#[trigger] slots[j]).touched
}

/// The slot touched longest ago.
pub open spec fn oldest<K, V>(slots: Seq<Slot<K, V>>) -> int {
    choose|i: int| is_oldest(slots, i)
}

/// What stays after the slots touched longest ago have gone, one by one, until the rest is within
/// `bound`.
pub open spec fn within<K, V>(slots: Seq<Slot<K, V>>, bound: u64) -> Seq<Slot<K, V>>
    decreases slots.len(),
{
    if total(slots) <= bound || slots.len() == 0 || !(0 <= oldest(slots) < slots.len()) {
        slots
    } else {
        within(slots.remove(oldest(slots)), bound)
    }
}

/// Whether a slot is keyed by `key`.
pub open spec fn holds_key<K: CacheKey, V>(slots: Seq<Slot<K, V>>, key: K) -> bool {
    exists|i: int| 0 <= i < slots.len() && (#[trigger] slots[i]).key.model() == key.model()
}

/// Taking a slot out takes its weight out.
pub proof fn lemma_total_remove<K, V>(slots: Seq<Slot<K, V>>, i: int)
    requires
        0 <= i < slots.len(),
    ensures
        total(slots.remove(i)) == total(slots) - slots[i].weight,
        total(slots) >= slots[i].weight,
    decreases slots.len(),
{
    lemma_total_nonnegative(slots.drop_last());
    if i == slots.len() - 1 {
        assert(slots.remove(i) =~= slots.drop_last());
    } else {
        lemma_total_remove(slots.drop_last(), i);
        assert(slots.remove(i).drop_last() =~= slots.drop_last().remove(i));
        assert(slots.remove(i).last() == slots.last());
    }
}

/// Touching a slot moves no weight.
pub proof fn lemma_touch_keeps_total<K, V>(slots: Seq<Slot<K, V>>, i: int, touched: u64)
    requires
        0 <= i < slots.len(),
    ensures
        total(slots.update(i, (Slot { touched, ..slots[i] }))) == total(slots),
{
    let after = slots.update(i, (Slot { touched, ..slots[i] }));
    lemma_total_remove(slots, i);
    lemma_total_remove(after, i);
    assert(after.remove(i) =~= slots.remove(i));
}

/// A total weight is not negative.
pub proof fn lemma_total_nonnegative<K, V>(slots: Seq<Slot<K, V>>)
    ensures
        total(slots) >= 0,
    decreases slots.len(),
{
    if slots.len() > 0 {
        lemma_total_nonnegative(slots.drop_last());
    }
}

impl<K: CacheKey, V> Lru<K, V> {
    /// The keys are distinct, no two slots were touched at once, the clock is past every touch, and
    /// `resident` is the weight of the slots.
    pub open spec fn wf(&self) -> bool {
        &&& self.resident == total(self.slots@)
        &&& forall|i: int, j: int|
            0 <= i < j < self.slots@.len() ==> (#[trigger] self.slots@[i]).key.model() != (
            #[trigger] self.slots@[j]).key.model() && self.slots@[i].touched
                != self.slots@[j].touched
        &&& forall|i: int|
            0 <= i < self.slots@.len() ==> (#[trigger] self.slots@[i]).touched <= self.clock
    }

    /// An empty cache.
    pub fn new(bound: u64) -> (cache: Self)
        ensures
            cache.wf(),
            cache.slots@.len() == 0,
            cache.bound == bound,
            cache.clock == 0,
            cache.evictions == 0,
    {
        Lru { slots: Vec::new(), resident: 0, clock: 0, bound, evictions: 0 }
    }

    /// Where the slot keyed by `key` stands.
    pub fn find(&self, key: &K) -> (at: Option<usize>)
        ensures
            at matches Some(i) ==> i < self.slots@.len() && self.slots@[i as int].key.model()
                == key.model(),
            at is None <==> !holds_key(self.slots@, *key),
    {
        let mut i: usize = 0;
        while i < self.slots.len()
            invariant
                i <= self.slots@.len(),
                forall|k: int| 0 <= k < i ==> (#[trigger] self.slots@[k]).key.model() != key.model(),
            decreases self.slots@.len() - i,
        {
            if self.slots[i].key.same_key(key) {
                assert(self.slots@[i as int].key.model() == key.model());
                return Some(i);
            }
            i += 1;
        }
        None
    }

    /// Touch a slot now.
    pub fn touch(&mut self, i: usize)
        requires
            old(self).wf(),
            i < old(self).slots@.len(),
            old(self).clock < u64::MAX,
        ensures
            final(self).wf(),
            final(self).clock == old(self).clock + 1,
            final(self).bound == old(self).bound,
            final(self).evictions == old(self).evictions,
            final(self).slots@ == old(self).slots@.update(
                i as int,
                (Slot { touched: final(self).clock, ..old(self).slots@[i as int] }),
            ),
    {
        let ghost before = self.slots@;
        self.clock = self.clock + 1;
        let clock: u64 = self.clock;
        let slot = self.slots.remove(i);
        proof {
            lemma_total_remove(before, i as int);
        }
        let moved = Slot { key: slot.key, value: slot.value, weight: slot.weight, touched: clock };
        self.slots.insert(i, moved);
        proof {
            let now = self.slots@;
            assert(now =~= before.update(i as int, (Slot { touched: clock, ..before[i as int] })));
            lemma_total_remove(now, i as int);
            assert(now.remove(i as int) =~= before.remove(i as int));
        }
    }

    /// Take a slot out.
    pub fn remove_at(&mut self, i: usize) -> (slot: Slot<K, V>)
        requires
            old(self).wf(),
            i < old(self).slots@.len(),
        ensures
            final(self).wf(),
            final(self).slots@ == old(self).slots@.remove(i as int),
            slot == old(self).slots@[i as int],
            final(self).clock == old(self).clock,
            final(self).bound == old(self).bound,
            final(self).evictions == old(self).evictions,
    {
        let ghost before = self.slots@;
        let slot = self.slots.remove(i);
        proof {
            lemma_total_remove(before, i as int);
        }
        self.resident = self.resident - slot.weight;
        slot
    }

    fn oldest_at(&self) -> (at: usize)
        requires
            self.wf(),
            self.slots@.len() > 0,
        ensures
            at < self.slots@.len(),
            at == oldest(self.slots@),
    {
        let mut at: usize = 0;
        let mut i: usize = 1;
        while i < self.slots.len()
            invariant
                1 <= i <= self.slots@.len(),
                at < i,
                forall|k: int|
                    0 <= k < i ==> self.slots@[at as int].touched <= (
                    #[trigger] self.slots@[k]).touched,
            decreases self.slots@.len() - i,
        {
            if self.slots[i].touched < self.slots[at].touched {
                at = i;
            }
            i += 1;
        }
        proof {
            let s = self.slots@;
            assert forall|j: int| 0 <= j < s.len() && j != at implies (
            #[trigger] s[at as int]).touched < (#[trigger] s[j]).touched by {
                if j < at {
                    assert(s[j].touched != s[at as int].touched);
                } else {
                    assert(s[at as int].touched != s[j].touched);
                }
            }
            assert(is_oldest(s, at as int));
            let o = oldest(s);
            if o != at {
                assert(s[o].touched < s[at as int].touched);
            }
        }
        at
    }

    /// Let go of the slots touched longest ago until the rest is within the bound.
    fn evict_to_bound(&mut self)
        requires
            old(self).wf(),
        ensures
            final(self).wf(),
            final(self).slots@ == within(old(self).slots@, old(self).bound),
            final(self).bound == old(self).bound,
            final(self).clock == old(self).clock,
            final(self).evictions == counted_by(
                old(self).evictions,
                old(self).slots@.len() - final(self).slots@.len(),
            ),
    {
        let ghost start = self.slots@;
        while self.resident > self.bound && self.slots.len() > 0
            invariant
                self.wf(),
                self.bound == old(self).bound,
                self.clock == old(self).clock,
                start == old(self).slots@,
                self.slots@.len() <= start.len(),
                within(self.slots@, self.bound) == within(start, self.bound),
                self.evictions == counted_by(
                    old(self).evictions,
                    start.len() - self.slots@.len(),
                ),
            decreases self.slots@.len(),
        {
            let at: usize = self.oldest_at();
            let _gone = self.remove_at(at);
            self.evictions = count_one(self.evictions);
        }
        proof {
            lemma_total_nonnegative(self.slots@);
        }
    }

    /// Bound the cache anew.
    pub fn set_bound(&mut self, bound: u64)
        requires
            old(self).wf(),
        ensures
            final(self).wf(),
            final(self).bound == bound,
            final(self).slots@ == within(old(self).slots@, bound),
            final(self).clock == old(self).clock,
            final(self).evictions == counted_by(
                old(self).evictions,
                old(self).slots@.len() - final(self).slots@.len(),
            ),
    {
        self.bound = bound;
        self.evict_to_bound();
    }

    /// Hold a value under a key the cache does not hold.
    pub fn hold(&mut self, key: K, value: V, weight: u64)
        requires
            old(self).wf(),
            !holds_key(old(self).slots@, key),
            old(self).clock < u64::MAX,
            old(self).resident + weight <= u64::MAX,
        ensures
            final(self).wf(),
            final(self).bound == old(self).bound,
            final(self).clock == old(self).clock + 1,
            final(self).slots@ == within(
                old(self).slots@.push(Slot { key, value, weight, touched: final(self).clock }),
                old(self).bound,
            ),
            final(self).evictions == counted_by(
                old(self).evictions,
                old(self).slots@.len() + 1 - final(self).slots@.len(),
            ),
    {
        let ghost before = self.slots@;
        self.clock = self.clock + 1;
        let touched: u64 = self.clock;
        self.slots.push(Slot { key, value, weight, touched });
        self.resident = self.resident + weight;
        proof {
            assert(self.slots@.drop_last() =~= before);
            assert forall|i: int| 0 <= i < before.len() implies (
            #[trigger] before[i]).key.model() != key.model() by {
                assert(!(before[i].key.model() == key.model()));
            }
        }
        self.evict_to_bound();
    }
}

/// What is left after eviction is within the bound, or nothing is left.
pub proof fn law_eviction_reaches_the_bound<K: CacheKey, V>(cache: Lru<K, V>, bound: u64)
    requires
        cache.wf(),
    ensures
        total(within(cache.slots@, bound)) <= bound,
        total(cache.slots@) <= bound ==> within(cache.slots@, bound) == cache.slots@,
{
    lemma_within_bound(cache.slots@, bound);
}

/// What eviction leaves is within the bound.
pub proof fn lemma_within_bound<K, V>(slots: Seq<Slot<K, V>>, bound: u64)
    requires
        forall|i: int, j: int|
            0 <= i < j < slots.len() ==> (#[trigger] slots[i]).touched != (
            #[trigger] slots[j]).touched,
    ensures
        total(within(slots, bound)) <= bound,
    decreases slots.len(),
{
    if total(slots) > bound && slots.len() > 0 {
        lemma_oldest_exists(slots);
        lemma_within_bound(slots.remove(oldest(slots)), bound);
    }
}

proof fn lemma_oldest_exists<K, V>(slots: Seq<Slot<K, V>>)
    requires
        slots.len() > 0,
        forall|i: int, j: int|
            0 <= i < j < slots.len() ==> (#[trigger] slots[i]).touched != (
            #[trigger] slots[j]).touched,
    ensures
        is_oldest(slots, oldest(slots)),
{
    let at = least_touched(slots);
    lemma_least_touched(slots);
    assert forall|j: int| 0 <= j < slots.len() && j != at implies slots[at].touched < (
    #[trigger] slots[j]).touched by {
        if j < at {
            assert(slots[j].touched != slots[at].touched);
        } else {
            assert(slots[at].touched != slots[j].touched);
        }
    }
    assert(is_oldest(slots, at));
}

spec fn least_touched<K, V>(slots: Seq<Slot<K, V>>) -> int
    decreases slots.len(),
{
    if slots.len() <= 1 {
        0
    } else {
        let before = least_touched(slots.drop_last());
        if slots.last().touched < slots[before].touched {
            slots.len() - 1
        } else {
            before
        }
    }
}

proof fn lemma_least_touched<K, V>(slots: Seq<Slot<K, V>>)
    requires
        slots.len() > 0,
    ensures
        0 <= least_touched(slots) < slots.len(),
        forall|j: int|
            0 <= j < slots.len() ==> slots[least_touched(slots)].touched <= (
            #[trigger] slots[j]).touched,
    decreases slots.len(),
{
    if slots.len() > 1 {
        let front = slots.drop_last();
        lemma_least_touched(front);
        assert forall|j: int| 0 <= j < slots.len() implies slots[least_touched(slots)].touched <= (
        #[trigger] slots[j]).touched by {
            if j < front.len() {
                assert(front[j] == slots[j]);
            }
        }
    }
}

/// No two slots were touched at once.
pub open spec fn touched_apart<K, V>(slots: Seq<Slot<K, V>>) -> bool {
    forall|i: int, j: int|
        0 <= i < j < slots.len() ==> (#[trigger] slots[i]).touched != (#[trigger] slots[j]).touched
}

/// Whether eviction down to a bound takes a slot.
pub open spec fn evicted<K, V>(slots: Seq<Slot<K, V>>, bound: u64, slot: Slot<K, V>) -> bool {
    slots.contains(slot) && !within(slots, bound).contains(slot)
}

/// What is left without one slot, of slots that were touched apart.
proof fn lemma_without<K, V>(slots: Seq<Slot<K, V>>, at: int)
    requires
        touched_apart(slots),
        0 <= at < slots.len(),
    ensures
        touched_apart(slots.remove(at)),
        forall|slot: Slot<K, V>| #[trigger]
            slots.remove(at).contains(slot) <==> slots.contains(slot) && slot != slots[at],
{
    let rest = slots.remove(at);
    assert forall|slot: Slot<K, V>| #[trigger] rest.contains(slot) implies slots.contains(slot)
        && slot != slots[at] by {
        let i = choose|i: int| 0 <= i < rest.len() && rest[i] == slot;
        if i < at {
            assert(slots[i] == slot && slots[i].touched != slots[at].touched);
        } else {
            assert(slots[i + 1] == slot && slots[at].touched != slots[i + 1].touched);
        }
    }
    assert forall|slot: Slot<K, V>| slots.contains(slot) && slot != slots[at] implies #[trigger]
        rest.contains(slot) by {
        let i = choose|i: int| 0 <= i < slots.len() && slots[i] == slot;
        if i < at {
            assert(rest[i] == slot);
        } else {
            assert(rest[i - 1] == slot);
        }
    }
}

/// Eviction only removes.
pub proof fn lemma_within_keeps<K, V>(slots: Seq<Slot<K, V>>, bound: u64, slot: Slot<K, V>)
    requires
        touched_apart(slots),
        within(slots, bound).contains(slot),
    ensures
        slots.contains(slot),
    decreases slots.len(),
{
    if within(slots, bound) != slots {
        let at = oldest(slots);
        lemma_without(slots, at);
        lemma_within_keeps(slots.remove(at), bound, slot);
    }
}

/// The slot that goes first was touched before every other.
proof fn lemma_the_oldest_is_earliest<K, V>(slots: Seq<Slot<K, V>>, other: Slot<K, V>)
    requires
        touched_apart(slots),
        slots.contains(other),
    ensures
        0 <= oldest(slots) < slots.len(),
        other != slots[oldest(slots)] ==> slots[oldest(slots)].touched < other.touched,
{
    let j = choose|j: int| 0 <= j < slots.len() && slots[j] == other;
    lemma_oldest_exists(slots);
}

/// Whatever stays was touched after what went.
proof fn lemma_what_stays_is_later<K, V>(
    slots: Seq<Slot<K, V>>,
    bound: u64,
    gone: Slot<K, V>,
    kept: Slot<K, V>,
)
    requires
        touched_apart(slots),
        evicted(slots, bound, gone),
        within(slots, bound).contains(kept),
    ensures
        gone.touched < kept.touched,
    decreases slots.len(),
{
    let at = oldest(slots);
    let rest = slots.remove(at);
    lemma_within_keeps(slots, bound, kept);
    lemma_the_oldest_is_earliest(slots, kept);
    lemma_without(slots, at);
    if gone == slots[at] {
        lemma_within_keeps(rest, bound, kept);
    } else {
        lemma_what_stays_is_later(rest, bound, gone, kept);
    }
}

/// A slot that goes while what stays is over the bound is followed by another, touched later.
proof fn lemma_another_goes<K, V>(slots: Seq<Slot<K, V>>, bound: u64) -> (next: Slot<K, V>)
    requires
        touched_apart(slots),
        slots.len() > 0,
        total(slots) > bound,
        total(slots.remove(oldest(slots))) > bound,
    ensures
        evicted(slots, bound, next),
        slots[oldest(slots)].touched < next.touched,
{
    lemma_oldest_exists(slots);
    let at = oldest(slots);
    let rest = slots.remove(at);
    lemma_without(slots, at);
    lemma_oldest_exists(rest);
    let next = rest[oldest(rest)];
    assert(rest.contains(next));
    lemma_the_oldest_is_earliest(slots, next);
    lemma_without(rest, oldest(rest));
    if within(rest, bound).contains(next) {
        lemma_within_keeps(rest.remove(oldest(rest)), bound, next);
    }
    next
}

/// With the last that went, what stays would not have been within the bound.
proof fn lemma_no_more_goes_than_has_to<K, V>(
    slots: Seq<Slot<K, V>>,
    bound: u64,
    gone: Slot<K, V>,
)
    requires
        touched_apart(slots),
        evicted(slots, bound, gone),
        forall|other: Slot<K, V>| #[trigger]
            evicted(slots, bound, other) ==> other.touched <= gone.touched,
    ensures
        total(within(slots, bound)) + gone.weight > bound,
    decreases slots.len(),
{
    lemma_oldest_exists(slots);
    let at = oldest(slots);
    let rest = slots.remove(at);
    assert(within(slots, bound) == within(rest, bound));
    if gone == slots[at] {
        lemma_total_remove(slots, at);
        if total(rest) > bound {
            let next = lemma_another_goes(slots, bound);
            assert(evicted(slots, bound, next));
        }
    } else {
        assert(touched_apart(rest) && evicted(rest, bound, gone)) by {
            lemma_without(slots, at);
        }
        assert forall|other: Slot<K, V>| #[trigger] evicted(rest, bound, other) implies
            other.touched <= gone.touched by {
            assert(evicted(slots, bound, other)) by {
                lemma_without(slots, at);
            }
        }
        lemma_no_more_goes_than_has_to(rest, bound, gone);
    }
}

/// Eviction takes what was touched longest ago and no more than it has to: whatever stays was
/// touched after everything that went, and with the last that went what stays would not have been
/// within the bound.
pub proof fn law_eviction_takes_the_longest_untouched<K, V>(
    slots: Seq<Slot<K, V>>,
    bound: u64,
    gone: Slot<K, V>,
)
    requires
        touched_apart(slots),
        evicted(slots, bound, gone),
    ensures
        forall|kept: Slot<K, V>| #[trigger]
            within(slots, bound).contains(kept) ==> gone.touched < kept.touched,
        (forall|other: Slot<K, V>| #[trigger]
            evicted(slots, bound, other) ==> other.touched <= gone.touched) ==> total(
            within(slots, bound),
        ) + gone.weight > bound,
{
    assert forall|kept: Slot<K, V>| #[trigger] within(slots, bound).contains(kept) implies
        gone.touched < kept.touched by {
        lemma_what_stays_is_later(slots, bound, gone, kept);
    }
    if forall|other: Slot<K, V>| #[trigger]
        evicted(slots, bound, other) ==> other.touched <= gone.touched {
        lemma_no_more_goes_than_has_to(slots, bound, gone);
    }
}

/// What was touched last stays, where it is within the bound by itself.
pub proof fn lemma_the_latest_stays<K, V>(slots: Seq<Slot<K, V>>, bound: u64, slot: Slot<K, V>)
    requires
        touched_apart(slots),
        slots.contains(slot),
        slot.weight <= bound,
        forall|other: Slot<K, V>| #[trigger]
            slots.contains(other) ==> other.touched <= slot.touched,
    ensures
        within(slots, bound).contains(slot),
{
    if !within(slots, bound).contains(slot) {
        assert(evicted(slots, bound, slot));
        law_eviction_takes_the_longest_untouched(slots, bound, slot);
        let kept = within(slots, bound);
        assert(kept.len() == 0) by {
            if kept.len() > 0 {
                assert(kept.contains(kept[0]));
                lemma_within_keeps(slots, bound, kept[0]);
            }
        }
        assert forall|other: Slot<K, V>| #[trigger] evicted(slots, bound, other) implies
            other.touched <= slot.touched by {}
        assert(total(kept) == 0);
    }
}

/// The slots of a cache were touched apart.
pub proof fn lemma_apart<K: CacheKey, V>(cache: Lru<K, V>)
    requires
        cache.wf(),
    ensures
        touched_apart(cache.slots@),
{
    let slots = cache.slots@;
    assert forall|i: int, j: int| 0 <= i < j < slots.len() implies (#[trigger] slots[i]).touched != (
    #[trigger] slots[j]).touched by {}
}

/// With one more slot, touched after every other, they still are.
pub proof fn lemma_apart_push<K: CacheKey, V>(cache: Lru<K, V>, slot: Slot<K, V>)
    requires
        cache.wf(),
        slot.touched > cache.clock,
    ensures
        touched_apart(cache.slots@.push(slot)),
        forall|other: Slot<K, V>| #[trigger]
            cache.slots@.push(slot).contains(other) ==> other.touched <= slot.touched,
        forall|other: Slot<K, V>| #[trigger]
            cache.slots@.push(slot).contains(other) <==> cache.slots@.contains(other) || other
                == slot,
{
    lemma_apart(cache);
    let slots = cache.slots@;
    let more = slots.push(slot);
    assert forall|i: int, j: int| 0 <= i < j < more.len() implies (#[trigger] more[i]).touched != (
    #[trigger] more[j]).touched by {
        assert(more[i] == slots[i]);
        if j < slots.len() {
            assert(more[j] == slots[j]);
        }
    }
    assert forall|other: Slot<K, V>| #[trigger] more.contains(other) <==> slots.contains(other)
        || other == slot by {
        if more.contains(other) {
            let i = choose|i: int| 0 <= i < more.len() && more[i] == other;
            if i < slots.len() {
                assert(slots[i] == other);
            }
        }
        if slots.contains(other) {
            let i = choose|i: int| 0 <= i < slots.len() && slots[i] == other;
            assert(more[i] == other);
        }
        assert(more[slots.len() as int] == slot);
    }
    assert forall|other: Slot<K, V>| #[trigger] more.contains(other) implies other.touched
        <= slot.touched by {
        if slots.contains(other) {
            let i = choose|i: int| 0 <= i < slots.len() && slots[i] == other;
            assert(slots[i].touched <= cache.clock);
        }
    }
}

/// A slot that is newly held, and within the bound by itself, stays; what goes for it is what was
/// touched longest ago, and no more than has to.
pub proof fn law_a_new_slot_displaces_the_longest_untouched<K: CacheKey, V>(
    cache: Lru<K, V>,
    slot: Slot<K, V>,
    gone: Slot<K, V>,
)
    requires
        cache.wf(),
        slot.touched > cache.clock,
        slot.weight <= cache.bound,
    ensures
        ({
            let kept = within(cache.slots@.push(slot), cache.bound);
            &&& kept.contains(slot)
            &&& total(kept) <= cache.bound
            &&& cache.slots@.contains(gone) && !kept.contains(gone) ==> {
                &&& forall|other: Slot<K, V>| #[trigger]
                    kept.contains(other) ==> gone.touched < other.touched
                &&& (forall|other: Slot<K, V>| #[trigger]
                    cache.slots@.contains(other) && !kept.contains(other) ==> other.touched
                        <= gone.touched) ==> total(kept) + gone.weight > cache.bound
            }
        }),
{
    let slots = cache.slots@;
    let more = slots.push(slot);
    let bound = cache.bound;
    let kept = within(more, bound);
    lemma_apart_push(cache, slot);
    assert(more.contains(slot));
    lemma_the_latest_stays(more, bound, slot);
    lemma_within_bound(more, bound);
    if slots.contains(gone) && !kept.contains(gone) {
        assert(more.contains(gone));
        assert(evicted(more, bound, gone));
        law_eviction_takes_the_longest_untouched(more, bound, gone);
        if forall|other: Slot<K, V>| #[trigger]
            slots.contains(other) && !kept.contains(other) ==> other.touched <= gone.touched {
            assert forall|other: Slot<K, V>| #[trigger] evicted(more, bound, other) implies
                other.touched <= gone.touched by {
                assert(more.contains(other));
            }
        }
    }
}

} // verus!
