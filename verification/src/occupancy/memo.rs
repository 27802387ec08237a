//! The rungs a session has already paid for, under a byte bound.

use vstd::prelude::*;

use crate::hashing::same_digest;
use crate::lru::{
    counted_by, holds_key, law_a_new_slot_displaces_the_longest_untouched, lemma_apart_push,
    lemma_within_keeps, total, within, CacheKey, Lru, Slot,
};
use crate::text::same;

verus! {

/// The default byte bound on the memo.
pub const DEFAULT_OCCUPANCY_CACHE_BYTES: u64 = 33_554_432;

/// What one entry is charged at least.
pub const PER_ENTRY_FLOOR_BYTES: u64 = 512;

/// What one session's ladder charges over one view: one rung per depth at the floor.
pub const OCCUPANCY_LIVE_BYTES_PER_SESSION: u64 = 17 * PER_ENTRY_FLOOR_BYTES;

/// What the occupied tiles of a depth are a function of: the composed mask, the view's row space
/// and the depth.
#[derive(Debug)]
pub struct OccupancyKey {
    pub token_id: u64,
    pub view: String,
    pub depth: u8,
    pub segments_version: u64,
    pub overlay_version: u64,
    pub fragment_identity: [u8; 32],
    pub fragment_watermark: u64,
}

/// A key's terms.
pub struct OccupancyTerms {
    pub token_id: u64,
    pub view: Seq<char>,
    pub depth: u8,
    pub segments_version: u64,
    pub overlay_version: u64,
    pub fragment_identity: Seq<u8>,
    pub fragment_watermark: u64,
}

impl CacheKey for OccupancyKey {
    type Model = OccupancyTerms;

    open spec fn model(&self) -> OccupancyTerms {
        OccupancyTerms {
            token_id: self.token_id,
            view: self.view@,
            depth: self.depth,
            segments_version: self.segments_version,
            overlay_version: self.overlay_version,
            fragment_identity: self.fragment_identity@,
            fragment_watermark: self.fragment_watermark,
        }
    }

    fn same_key(&self, other: &Self) -> (yes: bool) {
        self.token_id == other.token_id && self.depth == other.depth && self.segments_version
            == other.segments_version && self.overlay_version == other.overlay_version
            && self.fragment_watermark == other.fragment_watermark && same_digest(
            &self.fragment_identity,
            &other.fragment_identity,
        ) && same(self.view.as_str(), other.view.as_str())
    }
}

/// One memoised rung.
#[derive(Clone, Copy, Debug, PartialEq, Eq, Structural)]
pub struct OccupiedTiles(pub u64);

impl OccupiedTiles {
    /// The value's own weight, before the floor.
    pub fn cache_weight_bytes(&self) -> (bytes: u64)
        ensures
            bytes == 8,
    {
        8
    }
}

/// The gauges an operator reads.
#[derive(Clone, Copy, Debug, PartialEq, Eq, Structural)]
pub struct MemoStats {
    pub entries: usize,
    pub evictions: u64,
    pub bytes: u64,
}

/// The memo.
pub struct OccupancyMemo {
    pub held: Lru<OccupancyKey, OccupiedTiles>,
}

impl OccupancyMemo {
    /// What is held is within the bound, and each rung is charged the floor.
    pub open spec fn wf(&self) -> bool {
        &&& self.held.wf()
        &&& self.held.resident <= self.held.bound
        &&& forall|i: int|
            0 <= i < self.held.slots@.len() ==> (#[trigger] self.held.slots@[i]).weight
                == PER_ENTRY_FLOOR_BYTES
    }

    /// What a lookup that was handed `rung` leaves. A rung that is held is touched, and nothing else
    /// moves. One that is not is held where the bound allows an entry at all, and what was touched
    /// longest ago goes to make room.
    pub open spec fn follows(&self, key: OccupancyKey, rung: OccupiedTiles, after: Self) -> bool {
        let slots = self.held.slots@;
        &&& after.held.bound == self.held.bound
        &&& after.held.clock == self.held.clock + if holds_key(slots, key) || self.held.bound
            >= PER_ENTRY_FLOOR_BYTES {
            1int
        } else {
            0
        }
        &&& holds_key(slots, key) ==> after.held.evictions == self.held.evictions && exists|i: int|
            0 <= i < slots.len() && (#[trigger] slots[i]).key.model() == key.model() && rung
                == slots[i].value && after.held.slots@ == slots.update(
                i,
                (Slot { touched: after.held.clock, ..slots[i] }),
            )
        &&& !holds_key(slots, key) ==> if self.held.bound >= PER_ENTRY_FLOOR_BYTES {
            &&& after.held.slots@ == within(
                slots.push(
                    (Slot {
                        key,
                        value: rung,
                        weight: PER_ENTRY_FLOOR_BYTES,
                        touched: after.held.clock,
                    }),
                ),
                self.held.bound,
            )
            &&& after.held.evictions == counted_by(
                self.held.evictions,
                slots.len() + 1 - after.held.slots@.len(),
            )
        } else {
            after.held.slots@ == slots && after.held.evictions == self.held.evictions
        }
    }

    /// An empty memo under a byte bound.
    pub fn new(bound: u64) -> (memo: Self)
        ensures
            memo.wf(),
            memo.held.bound == bound,
            memo.held.slots@.len() == 0,
            memo.held.clock == 0,
            memo.held.evictions == 0,
    {
        OccupancyMemo { held: Lru::new(bound) }
    }

    pub fn stats(&self) -> (stats: MemoStats)
        requires
            self.wf(),
        ensures
            stats.entries == self.held.slots@.len(),
            stats.evictions == self.held.evictions,
            stats.bytes == total(self.held.slots@),
            stats.bytes <= self.held.bound,
    {
        MemoStats {
            entries: self.held.slots.len(),
            evictions: self.held.evictions,
            bytes: self.held.resident,
        }
    }

    /// This key's rung, derived where nothing is held under it. What is derived is held at the
    /// greater of its weight and the floor, and what was touched longest ago goes to make room.
    pub fn get_or_derive<F: FnOnce() -> OccupiedTiles>(
        &mut self,
        key: OccupancyKey,
        derive_rung: F,
    ) -> (rung: OccupiedTiles)
        requires
            old(self).wf(),
            old(self).held.clock < u64::MAX,
            !holds_key(old(self).held.slots@, key) ==> derive_rung.requires(()) && (
            old(self).held.bound >= PER_ENTRY_FLOOR_BYTES ==> old(self).held.resident
                + PER_ENTRY_FLOOR_BYTES <= u64::MAX),
        ensures
            final(self).wf(),
            old(self).follows(key, rung, *final(self)),
            !holds_key(old(self).held.slots@, key) ==> derive_rung.ensures((), rung),
    {
        if let Some(i) = self.held.find(&key) {
            let rung = self.held.slots[i].value;
            let ghost before = self.held.slots@;
            self.held.touch(i);
            proof {
                crate::lru::lemma_touch_keeps_total(before, i as int, self.held.clock);
                assert(before[i as int].key.model() == key.model());
            }
            return rung;
        }
        let rung = derive_rung();
        let own: u64 = rung.cache_weight_bytes();
        let weight: u64 = if own < PER_ENTRY_FLOOR_BYTES {
            PER_ENTRY_FLOOR_BYTES
        } else {
            own
        };
        if weight <= self.held.bound {
            let ghost before = self.held;
            self.held.hold(key, rung, weight);
            proof {
                let slot = Slot { key, value: rung, weight, touched: self.held.clock };
                let more = before.slots@.push(slot);
                crate::lru::lemma_within_bound(more, self.held.bound);
                lemma_apart_push(before, slot);
                assert forall|i: int| 0 <= i < self.held.slots@.len() implies (
                #[trigger] self.held.slots@[i]).weight == PER_ENTRY_FLOOR_BYTES by {
                    assert(self.held.slots@.contains(self.held.slots@[i]));
                    lemma_within_keeps(more, self.held.bound, self.held.slots@[i]);
                }
            }
        }
        rung
    }
}

proof fn lemma_charged<V>(slots: Seq<Slot<OccupancyKey, V>>)
    requires
        forall|i: int|
            0 <= i < slots.len() ==> (#[trigger] slots[i]).weight == PER_ENTRY_FLOOR_BYTES,
    ensures
        total(slots) == slots.len() * PER_ENTRY_FLOOR_BYTES,
    decreases slots.len(),
{
    if slots.len() > 0 {
        lemma_charged(slots.drop_last());
        assert(slots.last().weight == PER_ENTRY_FLOOR_BYTES);
    }
}

/// The memo holds no more rungs than the bound pays for, each at the floor.
pub proof fn law_the_bound_limits_the_rungs_held(memo: OccupancyMemo)
    requires
        memo.wf(),
    ensures
        memo.held.slots@.len() * PER_ENTRY_FLOOR_BYTES <= memo.held.bound,
{
    lemma_charged(memo.held.slots@);
}

/// Where the bound allows an entry at all, a rung asked for again is the one handed out before:
/// nothing is derived, and nothing goes.
pub proof fn law_a_rung_asked_for_again_is_handed_back(
    before: OccupancyMemo,
    between: OccupancyMemo,
    after: OccupancyMemo,
    key: OccupancyKey,
    again: OccupancyKey,
    rung: OccupiedTiles,
    handed: OccupiedTiles,
)
    requires
        before.wf(),
        between.wf(),
        before.held.bound >= PER_ENTRY_FLOOR_BYTES,
        before.follows(key, rung, between),
        again.model() == key.model(),
        between.follows(again, handed, after),
    ensures
        holds_key(between.held.slots@, again),
        handed == rung,
        after.held.slots@.len() == between.held.slots@.len(),
        after.held.evictions == between.held.evictions,
{
    let slots = between.held.slots@;
    let first = before.held.slots@;
    let i = if holds_key(first, key) {
        choose|i: int|
            0 <= i < first.len() && (#[trigger] first[i]).key.model() == key.model() && rung
                == first[i].value && slots == first.update(
                i,
                (Slot { touched: between.held.clock, ..first[i] }),
            )
    } else {
        let slot = Slot {
            key,
            value: rung,
            weight: PER_ENTRY_FLOOR_BYTES,
            touched: between.held.clock,
        };
        law_a_new_slot_displaces_the_longest_untouched(before.held, slot, slot);
        choose|i: int| 0 <= i < slots.len() && slots[i] == slot
    };
    assert(slots[i].key.model() == again.model() && slots[i].value == rung);
    let j = choose|j: int|
        0 <= j < slots.len() && (#[trigger] slots[j]).key.model() == again.model() && handed
            == slots[j].value && after.held.slots@ == slots.update(
            j,
            (Slot { touched: after.held.clock, ..slots[j] }),
        );
    if i < j {
        assert(slots[i].key.model() != slots[j].key.model());
    } else if j < i {
        assert(slots[j].key.model() != slots[i].key.model());
    }
}

/// One held rung answers two requests only where they agree in the session, the view, the depth,
/// the row space, the deny state and the fragment; and it does answer every request that agrees in
/// all of them.
pub proof fn law_a_rung_is_shared_only_by_requests_that_agree(a: OccupancyKey, b: OccupancyKey)
    ensures
        a.model() == b.model() <==> {
            &&& a.token_id == b.token_id
            &&& a.view@ == b.view@
            &&& a.depth == b.depth
            &&& a.segments_version == b.segments_version
            &&& a.overlay_version == b.overlay_version
            &&& forall|i: int| 0 <= i < 32 ==> a.fragment_identity@[i] == b.fragment_identity@[i]
            &&& a.fragment_watermark == b.fragment_watermark
        },
{
    if a.model() == b.model() {
        assert(a.fragment_identity@ == b.fragment_identity@);
    } else if forall|i: int|
        0 <= i < 32 ==> a.fragment_identity@[i] == b.fragment_identity@[i] {
        assert(a.fragment_identity@ =~= b.fragment_identity@);
    }
}

} // verus!
