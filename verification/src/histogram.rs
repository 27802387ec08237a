//! Masked counts per session, layer and level, and the cache that holds them under a byte bound.
//!
//! A histogram is a function of the composed mask and of the level's column. The key names every
//! reason one of the two moves, so nothing held is ever edited: a deny rotates the key, and
//! eviction, [`MaskedCountCache::forget`] and [`MaskedCountCache::prune_token`] only remove.

use std::sync::Arc;
use croaring::Bitmap;
use vstd::prelude::*;

use crate::bitmap;
use crate::bitmap::bits;
use crate::hashing::same_digest;
use crate::lru::{
    count_one, counted_by, holds_key, law_a_new_slot_displaces_the_longest_untouched, lemma_apart,
    lemma_apart_push, lemma_within_keeps, total, within, CacheKey, Lru, Slot,
};
use crate::seqs::{
    lemma_filter_empty, lemma_filter_positions, lemma_filter_step, lemma_take_all,
};
use crate::shared::share;
use crate::text::same;

verus! {

/// What one histogram is a function of.
pub struct MaskedCountKey {
    /// The session's process-local identity.
    pub token_id: u64,
    pub view: String,
    pub layer: String,
    pub level: u32,
    /// What the column and the ordinals are valid for.
    pub level_version: u64,
    /// Whether the entry carries the accumulated geometry beside the counts.
    pub geometry: bool,
    /// The geometry this row space belongs to.
    pub segments_version: u64,
    /// Moved by every deny.
    pub overlay_version: u64,
    /// The identity of the bundle that produced the session's fragment.
    pub fragment_identity: [u8; 32],
    pub fragment_watermark: u64,
}

/// A key's terms.
pub struct MaskedCountTerms {
    pub token_id: u64,
    pub view: Seq<char>,
    pub layer: Seq<char>,
    pub level: u32,
    pub level_version: u64,
    pub geometry: bool,
    pub mask: MaskTerms,
}

/// The terms that name a composed mask.
pub struct MaskTerms {
    pub segments_version: u64,
    pub overlay_version: u64,
    pub fragment_identity: Seq<u8>,
    pub fragment_watermark: u64,
}

impl CacheKey for MaskedCountKey {
    type Model = MaskedCountTerms;

    open spec fn model(&self) -> MaskedCountTerms {
        MaskedCountTerms {
            token_id: self.token_id,
            view: self.view@,
            layer: self.layer@,
            level: self.level,
            level_version: self.level_version,
            geometry: self.geometry,
            mask: MaskTerms {
                segments_version: self.segments_version,
                overlay_version: self.overlay_version,
                fragment_identity: self.fragment_identity@,
                fragment_watermark: self.fragment_watermark,
            },
        }
    }

    fn same_key(&self, other: &Self) -> (yes: bool) {
        self.token_id == other.token_id && self.level == other.level && self.level_version
            == other.level_version && self.geometry == other.geometry && self.segments_version
            == other.segments_version && self.overlay_version == other.overlay_version
            && self.fragment_watermark == other.fragment_watermark && same_digest(
            &self.fragment_identity,
            &other.fragment_identity,
        ) && same(self.view.as_str(), other.view.as_str()) && same(
            self.layer.as_str(),
            other.layer.as_str(),
        )
    }
}

/// What a histogram is a function of in one request's composed mask.
pub struct MaskIdentity {
    pub token_id: u64,
    pub segments_version: u64,
    pub overlay_version: u64,
    pub fragment_identity: [u8; 32],
    pub fragment_watermark: u64,
}

impl MaskIdentity {
    /// This mask's key for one level.
    pub fn key(
        &self,
        view: &str,
        layer: &str,
        level: u32,
        level_version: u64,
        geometry: bool,
    ) -> (key: MaskedCountKey)
        ensures
            key.model() == (MaskedCountTerms {
                token_id: self.token_id,
                view: view@,
                layer: layer@,
                level,
                level_version,
                geometry,
                mask: MaskTerms {
                    segments_version: self.segments_version,
                    overlay_version: self.overlay_version,
                    fragment_identity: self.fragment_identity@,
                    fragment_watermark: self.fragment_watermark,
                },
            }),
    {
        MaskedCountKey {
            token_id: self.token_id,
            view: String::from_str(view),
            layer: String::from_str(layer),
            level,
            level_version,
            geometry,
            segments_version: self.segments_version,
            overlay_version: self.overlay_version,
            fragment_identity: self.fragment_identity,
            fragment_watermark: self.fragment_watermark,
        }
    }
}

/// Per ordinal, the position sum and the bounding box of the members a viewer may see.
pub struct MaskedGeometry {
    /// How many of the counted rows could be placed: the divisor of the mean.
    pub placed: Vec<u32>,
    pub sums: Vec<[u64; 2]>,
    pub boxes: Vec<[u32; 4]>,
}

/// How many ordinals there can be.
pub open spec fn ordinal_limit() -> int {
    0x1_0000_0000
}

impl MaskedGeometry {
    pub fn new(placed: Vec<u32>, sums: Vec<[u64; 2]>, boxes: Vec<[u32; 4]>) -> (geometry: Self)
        ensures
            geometry.placed@ == placed@,
            geometry.sums@ == sums@,
            geometry.boxes@ == boxes@,
    {
        MaskedGeometry { placed, sums, boxes }
    }

    /// Whether a viewer sees a placed member of this ordinal's artifact.
    pub open spec fn places(&self, ordinal: u32) -> bool {
        ordinal < self.placed@.len() && self.placed@[ordinal as int] != 0
    }

    /// The position sum of the members this viewer may see and how many they are, or `None` where
    /// they see none: the numerator and the divisor of the centroid.
    pub fn position_sum(&self, ordinal: u32) -> (sum: Option<([u64; 2], u32)>)
        ensures
            sum == if self.places(ordinal) && ordinal < self.sums@.len() {
                Some((self.sums@[ordinal as int], self.placed@[ordinal as int]))
            } else {
                None
            },
    {
        let i: usize = ordinal as usize;
        if i < self.placed.len() && self.placed[i] != 0 && i < self.sums.len() {
            Some((self.sums[i], self.placed[i]))
        } else {
            None
        }
    }

    /// `[x_min, y_min, x_max, y_max]` over the members this viewer may see, or `None` where they
    /// see none.
    pub fn bbox(&self, ordinal: u32) -> (found: Option<[u32; 4]>)
        ensures
            found == if self.places(ordinal) && ordinal < self.boxes@.len() {
                Some(self.boxes@[ordinal as int])
            } else {
                None
            },
    {
        let i: usize = ordinal as usize;
        if i < self.placed.len() && self.placed[i] != 0 && i < self.boxes.len() {
            Some(self.boxes[i])
        } else {
            None
        }
    }

    /// What the geometry weighs: a count, two sums and four bounds an ordinal.
    pub open spec fn weight(&self) -> nat {
        self.placed@.len() * 36
    }

    fn weight_bytes(&self) -> (bytes: u64)
        requires
            self.placed@.len() <= ordinal_limit(),
        ensures
            bytes == self.weight(),
    {
        self.placed.len() as u64 * 36
    }
}

/// One level's masked counts, by ordinal.
pub struct MaskedCounts {
    pub counts: Vec<u32>,
    pub geometry: Option<MaskedGeometry>,
}

impl MaskedCounts {
    /// Counts alone.
    pub fn new(counts: Vec<u32>) -> (masked: Self)
        ensures
            masked.counts@ == counts@,
            masked.geometry is None,
    {
        MaskedCounts { counts, geometry: None }
    }

    /// The same counts with the accumulated geometry beside them.
    pub fn with_geometry(counts: Vec<u32>, geometry: MaskedGeometry) -> (masked: Self)
        ensures
            masked.counts@ == counts@,
            masked.geometry == Some(geometry),
    {
        MaskedCounts { counts, geometry: Some(geometry) }
    }

    /// The accumulated geometry, where the entry carries it.
    pub fn geometry(&self) -> (geometry: Option<&MaskedGeometry>)
        ensures
            geometry is Some <==> self.geometry is Some,
            geometry matches Some(g) ==> Some(*g) == self.geometry,
    {
        match &self.geometry {
            Some(geometry) => Some(geometry),
            None => None,
        }
    }

    /// An ordinal's count: zero past the end.
    pub open spec fn count(&self, ordinal: u32) -> int {
        if ordinal < self.counts@.len() {
            self.counts@[ordinal as int] as int
        } else {
            0
        }
    }

    /// How many visible members one artifact has: zero past the end.
    pub fn get(&self, ordinal: u32) -> (count: u64)
        ensures
            count == self.count(ordinal),
    {
        let i: usize = ordinal as usize;
        if i < self.counts.len() {
            self.counts[i] as u64
        } else {
            0
        }
    }

    /// Every ordinal whose count is not zero.
    pub fn populated(&self) -> (ordinals: Bitmap)
        requires
            self.counts@.len() <= ordinal_limit(),
        ensures
            bits(ordinals) == Set::new(|ordinal: u32| self.count(ordinal) > 0),
    {
        let mut hits: Vec<u32> = Vec::new();
        let mut i: usize = 0;
        while i < self.counts.len()
            invariant
                i <= self.counts@.len() <= ordinal_limit(),
                forall|x: u32| #[trigger] hits@.contains(x) <==> x < i && self.count(x) > 0,
            decreases self.counts@.len() - i,
        {
            if self.counts[i] > 0 {
                let ghost before = hits@;
                hits.push(i as u32);
                proof {
                    assert forall|x: u32| #[trigger] hits@.contains(x) <==> x < i + 1 && self.count(
                        x,
                    ) > 0 by {
                        if before.contains(x) {
                            let k = choose|k: int| 0 <= k < before.len() && before[k] == x;
                            assert(hits@[k] == x);
                        }
                        if x == i {
                            assert(hits@[before.len() as int] == x);
                        }
                        if hits@.contains(x) && x != i {
                            let k = choose|k: int| 0 <= k < hits@.len() && hits@[k] == x;
                            assert(before[k] == x);
                        }
                    }
                }
            }
            i += 1;
        }
        let mut ordinals = bitmap::of(hits.as_slice());
        bitmap::run_optimize(&mut ordinals);
        assert(bits(ordinals) =~= Set::new(|ordinal: u32| self.count(ordinal) > 0)) by {
            assert forall|x: u32| hits@.to_set().contains(x) == (self.count(x) > 0) by {
                assert(hits@.to_set().contains(x) == hits@.contains(x));
            }
        }
        ordinals
    }

    /// How many ordinals this covers.
    pub fn len(&self) -> (count: usize)
        ensures
            count == self.counts@.len(),
    {
        self.counts.len()
    }

    pub fn is_empty(&self) -> (yes: bool)
        ensures
            yes == (self.counts@.len() == 0),
    {
        self.counts.len() == 0
    }

    /// No more ordinals than an ordinal can name.
    pub open spec fn wf(&self) -> bool {
        &&& self.counts@.len() <= ordinal_limit()
        &&& self.geometry matches Some(g) ==> g.placed@.len() <= ordinal_limit()
    }

    /// What the entry weighs: four bytes an ordinal, and the geometry.
    pub open spec fn weight(&self) -> nat {
        self.counts@.len() * 4 + match self.geometry {
            Some(geometry) => geometry.weight(),
            None => 0,
        }
    }

    fn weight_bytes(&self) -> (bytes: u64)
        requires
            self.wf(),
        ensures
            bytes == self.weight(),
    {
        let beside: u64 = match &self.geometry {
            Some(geometry) => geometry.weight_bytes(),
            None => 0,
        };
        self.counts.len() as u64 * 4 + beside
    }
}

/// The gauges an operator reads.
#[derive(Clone, Copy, Debug, PartialEq, Eq, Structural)]
pub struct MaskedCountStats {
    pub hits: u64,
    pub misses: u64,
    pub evictions: u64,
    /// Bytes currently held.
    pub resident_bytes: u64,
    /// Entries currently held.
    pub entries: usize,
}

/// Session, layer and level to masked counts, under a byte bound.
pub struct MaskedCountCache {
    pub held: Lru<MaskedCountKey, Arc<MaskedCounts>>,
    pub hits: u64,
    pub misses: u64,
}

/// One resident entry.
pub type CountSlot = Slot<MaskedCountKey, Arc<MaskedCounts>>;

/// The slots of other layers.
pub open spec fn of_another_layer(layer: Seq<char>) -> spec_fn(CountSlot) -> bool {
    |slot: CountSlot| slot.key.layer@ != layer
}

/// The slots of other sessions.
pub open spec fn of_another_session(token_id: u64) -> spec_fn(CountSlot) -> bool {
    |slot: CountSlot| slot.key.token_id != token_id
}

/// A call of the cache, with what a lookup handed back.
pub enum CacheCall {
    Lookup { key: MaskedCountKey, counts: Arc<MaskedCounts> },
    SetBound { bound_bytes: u64 },
    Forget { layer: Seq<char> },
    Prune { token_id: u64 },
    Stats,
}

impl Default for MaskedCountCache {
    /// No bound.
    fn default() -> (cache: Self)
        ensures
            cache.wf(),
            cache.held.slots@.len() == 0,
            cache.held.bound == u64::MAX,
            cache.hits == 0,
            cache.misses == 0,
            cache.held.evictions == 0,
            cache.held.clock == 0,
    {
        MaskedCountCache::new(u64::MAX)
    }
}

impl MaskedCountCache {
    /// The cache's own invariant: [`Lru::wf`], and what is held is within the bound.
    pub open spec fn wf(&self) -> bool {
        &&& self.held.wf()
        &&& self.held.resident <= self.held.bound
    }

    /// `bound_bytes` is the resident-byte ceiling; `u64::MAX` means no bound.
    pub fn new(bound_bytes: u64) -> (cache: Self)
        ensures
            cache.wf(),
            cache.held.slots@.len() == 0,
            cache.held.bound == bound_bytes,
            cache.hits == 0,
            cache.misses == 0,
            cache.held.evictions == 0,
            cache.held.clock == 0,
    {
        MaskedCountCache { held: Lru::new(bound_bytes), hits: 0, misses: 0 }
    }

    /// Move the ceiling, evicting down to it at once.
    pub fn set_bound_bytes(&mut self, bound_bytes: u64)
        requires
            old(self).wf(),
        ensures
            final(self).wf(),
            old(self).follows(CacheCall::SetBound { bound_bytes }, *final(self)),
    {
        proof {
            crate::lru::law_eviction_reaches_the_bound(self.held, bound_bytes);
        }
        self.held.set_bound(bound_bytes);
    }

    /// What the cache's gauges read.
    pub open spec fn reports(&self, stats: MaskedCountStats) -> bool {
        &&& stats.hits == self.hits
        &&& stats.misses == self.misses
        &&& stats.evictions == self.held.evictions
        &&& stats.resident_bytes == total(self.held.slots@)
        &&& stats.entries == self.held.slots@.len()
    }

    pub fn stats(&self) -> (stats: MaskedCountStats)
        requires
            self.wf(),
        ensures
            self.reports(stats),
    {
        MaskedCountStats {
            hits: self.hits,
            misses: self.misses,
            evictions: self.held.evictions,
            resident_bytes: self.held.resident,
            entries: self.held.slots.len(),
        }
    }

    /// What a lookup that found slot `i` leaves: the slot is touched, and nothing else moves.
    pub open spec fn hit(&self, after: Self, i: int, counts: Arc<MaskedCounts>) -> bool {
        &&& 0 <= i < self.held.slots@.len()
        &&& counts == self.held.slots@[i].value
        &&& after.held.slots@ == self.held.slots@.update(
            i,
            (Slot { touched: after.held.clock, ..self.held.slots@[i] }),
        )
        &&& after.held.clock == self.held.clock + 1
        &&& after.hits == counted_by(self.hits, 1)
        &&& after.misses == self.misses
        &&& after.held.evictions == self.held.evictions
    }

    /// What a lookup that built `counts` leaves: they are held where they fit under the bound at
    /// all, and what was touched longest ago goes to make room.
    pub open spec fn miss(&self, after: Self, key: MaskedCountKey, counts: Arc<MaskedCounts>) -> bool {
        &&& after.hits == self.hits
        &&& after.misses == counted_by(self.misses, 1)
        &&& if counts.weight() <= self.held.bound {
            &&& after.held.slots@ == within(
                self.held.slots@.push(
                    (Slot {
                        key,
                        value: counts,
                        weight: counts.weight() as u64,
                        touched: after.held.clock,
                    }),
                ),
                self.held.bound,
            )
            &&& after.held.evictions == counted_by(
                self.held.evictions,
                self.held.slots@.len() + 1 - after.held.slots@.len(),
            )
            &&& after.held.clock == self.held.clock + 1
        } else {
            &&& after.held.slots@ == self.held.slots@
            &&& after.held.evictions == self.held.evictions
            &&& after.held.clock == self.held.clock
        }
    }

    /// What a call that only removes leaves: the slots it keeps, and nothing else moves.
    pub open spec fn keeps(&self, after: Self, kept: Seq<CountSlot>) -> bool {
        &&& after.held.slots@ == kept
        &&& after.held.bound == self.held.bound
        &&& after.held.clock == self.held.clock
        &&& after.held.evictions == self.held.evictions
        &&& after.hits == self.hits
        &&& after.misses == self.misses
    }

    /// What a call leaves.
    pub open spec fn follows(&self, call: CacheCall, after: Self) -> bool {
        match call {
            CacheCall::Lookup { key, counts } => {
                &&& after.held.bound == self.held.bound
                &&& holds_key(self.held.slots@, key) ==> exists|i: int|
                    0 <= i < self.held.slots@.len() && (#[trigger] self.held.slots@[i]).key.model()
                        == key.model() && self.hit(after, i, counts)
                &&& !holds_key(self.held.slots@, key) ==> self.miss(after, key, counts)
            },
            CacheCall::SetBound { bound_bytes } => {
                &&& after.held.bound == bound_bytes
                &&& after.held.slots@ == within(self.held.slots@, bound_bytes)
                &&& after.held.evictions == counted_by(
                    self.held.evictions,
                    self.held.slots@.len() - after.held.slots@.len(),
                )
                &&& after.held.clock == self.held.clock
                &&& after.hits == self.hits
                &&& after.misses == self.misses
            },
            CacheCall::Forget { layer } => self.keeps(
                after,
                self.held.slots@.filter(of_another_layer(layer)),
            ),
            CacheCall::Prune { token_id } => self.keeps(
                after,
                self.held.slots@.filter(of_another_session(token_id)),
            ),
            CacheCall::Stats => after == *self,
        }
    }

    /// This key's counts, built where nothing is held under it: `build` is then called, and is not
    /// otherwise.
    pub fn get_or_build<F: FnOnce() -> MaskedCounts>(
        &mut self,
        key: MaskedCountKey,
        build: F,
    ) -> (counts: Arc<MaskedCounts>)
        requires
            old(self).wf(),
            old(self).held.clock < u64::MAX,
            !holds_key(old(self).held.slots@, key) ==> build.requires(()) && forall|
                built: MaskedCounts,
            | #[trigger]
                build.ensures((), built) ==> built.wf() && (built.weight() <= old(self).held.bound
                    ==> old(self).held.resident + built.weight() <= u64::MAX),
        ensures
            final(self).wf(),
            old(self).follows(CacheCall::Lookup { key, counts }, *final(self)),
            !holds_key(old(self).held.slots@, key) ==> build.ensures((), *counts),
    {
        if let Some(i) = self.held.find(&key) {
            let counts = share(&self.held.slots[i].value);
            let ghost before = self.held.slots@;
            self.held.touch(i);
            self.hits = count_one(self.hits);
            proof {
                crate::lru::lemma_touch_keeps_total(before, i as int, self.held.clock);
                assert(before[i as int].key.model() == key.model());
                assert(old(self).hit(*self, i as int, counts));
            }
            return counts;
        }
        self.misses = count_one(self.misses);
        let built = build();
        let weight: u64 = built.weight_bytes();
        let counts = Arc::new(built);
        if weight <= self.held.bound {
            let kept = share(&counts);
            let ghost before = self.held;
            self.held.hold(key, kept, weight);
            proof {
                let pushed = before.slots@.push(
                    (Slot { key, value: counts, weight, touched: self.held.clock }),
                );
                crate::lru::lemma_within_bound(pushed, self.held.bound);
            }
        }
        counts
    }

    /// Drop everything held for one layer, in every view and for every session.
    pub fn forget(&mut self, layer: &str)
        requires
            old(self).wf(),
        ensures
            final(self).wf(),
            old(self).follows(CacheCall::Forget { layer: layer@ }, *final(self)),
    {
        let ghost whole = self.held.slots@;
        let ghost p = of_another_layer(layer@);
        let mut i: usize = 0;
        let ghost mut n: int = 0;
        proof {
            lemma_filter_empty(whole, p);
            assert(self.held.slots@ =~= whole.take(0).filter(p) + whole.skip(0));
        }
        while i < self.held.slots.len()
            invariant
                self.held.wf(),
                self.held.resident <= self.held.bound,
                self.held.bound == old(self).held.bound,
                self.held.clock == old(self).held.clock,
                self.held.evictions == old(self).held.evictions,
                self.hits == old(self).hits,
                self.misses == old(self).misses,
                p == of_another_layer(layer@),
                whole == old(self).held.slots@,
                0 <= n <= whole.len(),
                i == whole.take(n).filter(p).len(),
                self.held.slots@ == whole.take(n).filter(p) + whole.skip(n),
            decreases self.held.slots@.len() - i,
        {
            let ghost before = self.held.slots@;
            proof {
                lemma_filter_step(whole, n, p);
                assert(whole.skip(n)[0] == whole[n]);
                assert(before[i as int] == whole[n]);
            }
            if same(self.held.slots[i].key.layer.as_str(), layer) {
                let _gone = self.held.remove_at(i);
                proof {
                    assert(self.held.slots@ =~= whole.take(n + 1).filter(p) + whole.skip(n + 1));
                    crate::lru::lemma_total_remove(before, i as int);
                }
            } else {
                i += 1;
                proof {
                    assert(self.held.slots@ =~= whole.take(n + 1).filter(p) + whole.skip(n + 1));
                }
            }
            proof {
                n = n + 1;
            }
        }
        proof {
            assert(n == whole.len());
            lemma_take_all(whole);
            assert(self.held.slots@ =~= whole.filter(p));
        }
    }

    /// Remove every histogram belonging to one session.
    pub fn prune_token(&mut self, token_id: u64)
        requires
            old(self).wf(),
        ensures
            final(self).wf(),
            old(self).follows(CacheCall::Prune { token_id }, *final(self)),
    {
        let ghost whole = self.held.slots@;
        let ghost p = of_another_session(token_id);
        let mut i: usize = 0;
        let ghost mut n: int = 0;
        proof {
            lemma_filter_empty(whole, p);
            assert(self.held.slots@ =~= whole.take(0).filter(p) + whole.skip(0));
        }
        while i < self.held.slots.len()
            invariant
                self.held.wf(),
                self.held.resident <= self.held.bound,
                self.held.bound == old(self).held.bound,
                self.held.clock == old(self).held.clock,
                self.held.evictions == old(self).held.evictions,
                self.hits == old(self).hits,
                self.misses == old(self).misses,
                p == of_another_session(token_id),
                whole == old(self).held.slots@,
                0 <= n <= whole.len(),
                i == whole.take(n).filter(p).len(),
                self.held.slots@ == whole.take(n).filter(p) + whole.skip(n),
            decreases self.held.slots@.len() - i,
        {
            let ghost before = self.held.slots@;
            proof {
                lemma_filter_step(whole, n, p);
                assert(whole.skip(n)[0] == whole[n]);
                assert(before[i as int] == whole[n]);
            }
            if self.held.slots[i].key.token_id == token_id {
                let _gone = self.held.remove_at(i);
                proof {
                    assert(self.held.slots@ =~= whole.take(n + 1).filter(p) + whole.skip(n + 1));
                    crate::lru::lemma_total_remove(before, i as int);
                }
            } else {
                i += 1;
                proof {
                    assert(self.held.slots@ =~= whole.take(n + 1).filter(p) + whole.skip(n + 1));
                }
            }
            proof {
                n = n + 1;
            }
        }
        proof {
            assert(n == whole.len());
            lemma_take_all(whole);
            assert(self.held.slots@ =~= whole.filter(p));
        }
    }
}

/// A deny rotates the key: a request made after it names no entry taken before it, whatever else
/// the two keys have in common.
pub proof fn law_a_deny_names_no_earlier_entry(
    held: Lru<MaskedCountKey, Arc<MaskedCounts>>,
    key: MaskedCountKey,
)
    requires
        forall|i: int|
            0 <= i < held.slots@.len() ==> (#[trigger] held.slots@[i]).key.overlay_version
                < key.overlay_version,
    ensures
        !holds_key(held.slots@, key),
{
    if holds_key(held.slots@, key) {
        let i = choose|i: int|
            0 <= i < held.slots@.len() && (#[trigger] held.slots@[i]).key.model() == key.model();
        assert(held.slots@[i].key.model().mask.overlay_version == key.model().mask.overlay_version);
    }
}

/// Two sessions share no entry, whatever else their keys have in common.
pub proof fn law_counts_are_the_principals_own(a: MaskedCountKey, b: MaskedCountKey)
    requires
        a.token_id != b.token_id,
    ensures
        a.model() != b.model(),
{
    assert(a.model().token_id != b.model().token_id);
}

/// Whether a cache went through some states, one call after another, each of them well formed.
pub open spec fn runs(states: Seq<MaskedCountCache>, calls: Seq<CacheCall>) -> bool {
    &&& states.len() == calls.len() + 1
    &&& forall|n: int| 0 <= n < states.len() ==> (#[trigger] states[n]).wf()
    &&& forall|n: int|
        0 <= n < calls.len() ==> states[n].follows(#[trigger] calls[n], states[n + 1])
}

/// How many of some calls are lookups.
pub open spec fn lookups(calls: Seq<CacheCall>) -> nat
    decreases calls.len(),
{
    if calls.len() == 0 {
        0
    } else {
        lookups(calls.drop_last()) + if calls.last() is Lookup {
            1nat
        } else {
            0
        }
    }
}

/// The byte bound in force after some calls.
pub open spec fn bound_after(bound: u64, calls: Seq<CacheCall>) -> u64
    decreases calls.len(),
{
    if calls.len() == 0 {
        bound
    } else {
        match calls.last() {
            CacheCall::SetBound { bound_bytes } => bound_bytes,
            _ => bound_after(bound, calls.drop_last()),
        }
    }
}

/// Whether a cache holds a value under a key.
pub open spec fn holds(cache: MaskedCountCache, key: MaskedCountKey, value: Arc<MaskedCounts>) -> bool {
    exists|i: int|
        0 <= i < cache.held.slots@.len() && (#[trigger] cache.held.slots@[i]).key.model()
            == key.model() && cache.held.slots@[i].value == value
}

proof fn lemma_run_before(states: Seq<MaskedCountCache>, calls: Seq<CacheCall>)
    requires
        runs(states, calls),
        calls.len() > 0,
    ensures
        runs(states.drop_last(), calls.drop_last()),
        states.drop_last().last().follows(calls.last(), states.last()),
{
    let (before, made) = (states.drop_last(), calls.drop_last());
    assert forall|n: int| 0 <= n < made.len() implies before[n].follows(
        #[trigger] made[n],
        before[n + 1],
    ) by {
        assert(states[n].follows(calls[n], states[n + 1]));
    }
    assert forall|n: int| 0 <= n < before.len() implies (#[trigger] before[n]).wf() by {
        assert(states[n].wf());
    }
    let last = calls.len() - 1;
    assert(states[last].follows(calls[last], states[last + 1]));
}

/// Whatever is asked of a cache, its gauges add up: every lookup was a hit or a miss, what is
/// resident is the weight of what is held and within the bound in force, and no key is held twice.
pub proof fn law_the_gauges_add_up(
    states: Seq<MaskedCountCache>,
    calls: Seq<CacheCall>,
    stats: MaskedCountStats,
)
    requires
        runs(states, calls),
        states.last().reports(stats),
    ensures
        (stats.hits + stats.misses) % 0x1_0000_0000_0000_0000 == (states[0].hits + states[0].misses
            + lookups(calls)) % 0x1_0000_0000_0000_0000,
        states[0].hits + states[0].misses + lookups(calls) <= u64::MAX ==> stats.hits + stats.misses
            == states[0].hits + states[0].misses + lookups(calls),
        states.last().held.bound == bound_after(states[0].held.bound, calls),
        stats.resident_bytes == total(states.last().held.slots@),
        stats.resident_bytes <= bound_after(states[0].held.bound, calls),
        stats.entries == states.last().held.slots@.len(),
        forall|i: int, j: int|
            0 <= i < j < stats.entries ==> (#[trigger] states.last().held.slots@[i]).key.model()
                != (#[trigger] states.last().held.slots@[j]).key.model(),
{
    assert(states[states.len() - 1].wf());
    lemma_gauges(states, calls);
}

proof fn lemma_gauges(states: Seq<MaskedCountCache>, calls: Seq<CacheCall>)
    requires
        runs(states, calls),
    ensures
        (states.last().hits + states.last().misses) % 0x1_0000_0000_0000_0000 == (states[0].hits
            + states[0].misses + lookups(calls)) % 0x1_0000_0000_0000_0000,
        states[0].hits + states[0].misses + lookups(calls) <= u64::MAX ==> states.last().hits
            + states.last().misses == states[0].hits + states[0].misses + lookups(calls),
        states.last().held.bound == bound_after(states[0].held.bound, calls),
    decreases calls.len(),
{
    if calls.len() > 0 {
        lemma_run_before(states, calls);
        lemma_gauges(states.drop_last(), calls.drop_last());
        assert(states.drop_last()[0] == states[0]);
        if calls.last() is Lookup {
            let before = states.drop_last().last();
            let (had, has) = (before.hits + before.misses, states.last().hits + states.last().misses);
            assert(has == had + 1 || has == had + 1 - 0x1_0000_0000_0000_0000);
        }
    }
}

/// What a miss built is held where it is within the bound, and what goes for it is what was touched
/// longest ago, and no more than has to.
pub proof fn law_a_miss_that_fits_is_held(
    before: MaskedCountCache,
    after: MaskedCountCache,
    key: MaskedCountKey,
    counts: Arc<MaskedCounts>,
    gone: CountSlot,
)
    requires
        before.wf(),
        after.wf(),
        counts.wf(),
        before.miss(after, key, counts),
        counts.weight() <= before.held.bound,
    ensures
        holds(after, key, counts),
        total(after.held.slots@) <= before.held.bound,
        before.held.slots@.contains(gone) && !after.held.slots@.contains(gone) ==> {
            &&& forall|kept: CountSlot| #[trigger]
                after.held.slots@.contains(kept) ==> gone.touched < kept.touched
            &&& (forall|other: CountSlot| #[trigger]
                before.held.slots@.contains(other) && !after.held.slots@.contains(other)
                    ==> other.touched <= gone.touched) ==> total(after.held.slots@) + gone.weight
                > before.held.bound
        },
{
    let slot = Slot { key, value: counts, weight: counts.weight() as u64, touched: after.held.clock };
    law_a_new_slot_displaces_the_longest_untouched(before.held, slot, gone);
    let kept = after.held.slots@;
    let i = choose|i: int| 0 <= i < kept.len() && kept[i] == slot;
    assert(kept[i].key.model() == key.model());
}

/// A key that is held is answered with the value held under it: nothing is built, and the lookup is
/// a hit.
pub proof fn law_a_held_value_is_handed_back(
    before: MaskedCountCache,
    after: MaskedCountCache,
    key: MaskedCountKey,
    asked: MaskedCountKey,
    value: Arc<MaskedCounts>,
    counts: Arc<MaskedCounts>,
)
    requires
        before.wf(),
        holds(before, key, value),
        asked.model() == key.model(),
        before.follows(CacheCall::Lookup { key: asked, counts }, after),
    ensures
        counts == value,
        after.hits == counted_by(before.hits, 1),
        after.misses == before.misses,
{
    let slots = before.held.slots@;
    let i = choose|i: int|
        0 <= i < slots.len() && (#[trigger] slots[i]).key.model() == key.model() && slots[i].value
            == value;
    assert(slots[i].key.model() == asked.model());
    let j = choose|j: int|
        0 <= j < slots.len() && (#[trigger] slots[j]).key.model() == asked.model() && before.hit(
            after,
            j,
            counts,
        );
    if i < j {
        assert(slots[i].key.model() != slots[j].key.model());
    } else if j < i {
        assert(slots[j].key.model() != slots[i].key.model());
    }
}

/// A value stays while its key does: whatever else is asked of the cache, a key held in every state
/// is held with the value it was first held with.
pub proof fn law_a_held_value_stays(
    states: Seq<MaskedCountCache>,
    calls: Seq<CacheCall>,
    key: MaskedCountKey,
    value: Arc<MaskedCounts>,
)
    requires
        runs(states, calls),
        holds(states[0], key, value),
        forall|n: int|
            0 <= n < states.len() ==> holds_key((#[trigger] states[n]).held.slots@, key),
    ensures
        holds(states.last(), key, value),
    decreases calls.len(),
{
    if calls.len() > 0 {
        lemma_run_before(states, calls);
        let front = states.drop_last();
        assert forall|n: int| 0 <= n < front.len() implies holds_key(
            (#[trigger] front[n]).held.slots@,
            key,
        ) by {
            assert(holds_key(states[n].held.slots@, key));
        }
        assert(front[0] == states[0]);
        law_a_held_value_stays(front, calls.drop_last(), key, value);
        assert(front[front.len() - 1].wf());
        assert(holds_key(states[states.len() - 1].held.slots@, key));
        lemma_step_keeps_value(front.last(), calls.last(), states.last(), key, value);
    }
}

/// What a lookup handed out is what its key is held with afterwards, where it is held.
proof fn lemma_what_is_handed_out_is_held(
    before: MaskedCountCache,
    after: MaskedCountCache,
    key: MaskedCountKey,
    counts: Arc<MaskedCounts>,
)
    requires
        before.wf(),
        before.follows(CacheCall::Lookup { key, counts }, after),
        holds_key(after.held.slots@, key),
    ensures
        holds(after, key, counts),
{
    let slots = before.held.slots@;
    let now = after.held.slots@;
    if holds_key(slots, key) {
        let i = choose|i: int|
            0 <= i < slots.len() && (#[trigger] slots[i]).key.model() == key.model() && before.hit(
                after,
                i,
                counts,
            );
        assert(now[i].key.model() == key.model() && now[i].value == counts);
    } else {
        let k = choose|k: int| 0 <= k < now.len() && (#[trigger] now[k]).key.model() == key.model();
        let slot = Slot {
            key,
            value: counts,
            weight: counts.weight() as u64,
            touched: after.held.clock,
        };
        assert(now.contains(now[k]));
        lemma_apart_push(before.held, slot);
        lemma_within_keeps(slots.push(slot), before.held.bound, now[k]);
        if slots.contains(now[k]) {
            let j = choose|j: int| 0 <= j < slots.len() && slots[j] == now[k];
            assert(slots[j].key.model() == key.model());
        }
    }
}

/// A key is built once while it is held. Whatever is asked of the cache after a first lookup, as
/// long as it leaves the key held, a lookup of the same key is handed the value that the first one
/// handed out, and is a hit. One of a key that is not held is a miss.
pub proof fn law_a_key_is_built_once(
    states: Seq<MaskedCountCache>,
    calls: Seq<CacheCall>,
    key: MaskedCountKey,
    first: Arc<MaskedCounts>,
    asked: MaskedCountKey,
    counts: Arc<MaskedCounts>,
)
    requires
        runs(states, calls),
        calls.len() >= 2,
        calls[0] == (CacheCall::Lookup { key, counts: first }),
        calls.last() == (CacheCall::Lookup { key: asked, counts }),
        forall|n: int|
            1 <= n < calls.len() ==> holds_key((#[trigger] states[n]).held.slots@, key),
    ensures
        ({
            let before = states[calls.len() - 1];
            let after = states.last();
            &&& asked.model() == key.model() ==> counts == first && after.hits == counted_by(
                before.hits,
                1,
            ) && after.misses == before.misses
            &&& !holds_key(before.held.slots@, asked) ==> after.misses == counted_by(
                before.misses,
                1,
            ) && after.hits == before.hits
        }),
{
    let last = calls.len() - 1;
    let (held, made) = (states.subrange(1, calls.len() as int), calls.subrange(1, last));
    assert forall|n: int| 0 <= n < made.len() implies held[n].follows(#[trigger] made[n], held[n + 1]) by {
        assert(states[n + 1].follows(calls[n + 1], states[n + 2]));
    }
    assert forall|n: int| 0 <= n < held.len() implies (#[trigger] held[n]).wf() && holds_key(
        held[n].held.slots@,
        key,
    ) by {
        assert(states[n + 1].wf() && holds_key(states[n + 1].held.slots@, key));
    }
    assert(states[0].wf() && states[0].follows(calls[0], states[1]));
    lemma_what_is_handed_out_is_held(states[0], states[1], key, first);
    law_a_held_value_stays(held, made, key, first);
    assert(states[last].wf() && states[last].follows(calls[last], states[last + 1]));
    if asked.model() == key.model() {
        law_a_held_value_is_handed_back(
            states[last],
            states[last + 1],
            key,
            asked,
            first,
            counts,
        );
    }
}

/// A slot of a cache that is keyed alike holds the value held under the key.
proof fn lemma_one_value(
    cache: MaskedCountCache,
    key: MaskedCountKey,
    value: Arc<MaskedCounts>,
    slot: CountSlot,
)
    requires
        cache.wf(),
        holds(cache, key, value),
        cache.held.slots@.contains(slot),
        slot.key.model() == key.model(),
    ensures
        slot.value == value,
{
    let slots = cache.held.slots@;
    let i = choose|i: int|
        0 <= i < slots.len() && (#[trigger] slots[i]).key.model() == key.model() && slots[i].value
            == value;
    let j = choose|j: int| 0 <= j < slots.len() && slots[j] == slot;
    if i < j {
        assert(slots[i].key.model() != slots[j].key.model());
    } else if j < i {
        assert(slots[j].key.model() != slots[i].key.model());
    }
}

/// A hit moves no value.
proof fn lemma_hit_keeps_value(
    before: MaskedCountCache,
    after: MaskedCountCache,
    j: int,
    counts: Arc<MaskedCounts>,
    key: MaskedCountKey,
    value: Arc<MaskedCounts>,
)
    requires
        before.hit(after, j, counts),
        holds(before, key, value),
    ensures
        holds(after, key, value),
{
    let slots = before.held.slots@;
    let i = choose|i: int|
        0 <= i < slots.len() && (#[trigger] slots[i]).key.model() == key.model() && slots[i].value
            == value;
    let now = after.held.slots@;
    assert(now[i].key.model() == key.model() && now[i].value == value);
}

proof fn lemma_step_keeps_value(
    before: MaskedCountCache,
    call: CacheCall,
    after: MaskedCountCache,
    key: MaskedCountKey,
    value: Arc<MaskedCounts>,
)
    requires
        before.wf(),
        before.follows(call, after),
        holds(before, key, value),
        holds_key(after.held.slots@, key),
    ensures
        holds(after, key, value),
{
    let slots = before.held.slots@;
    let now = after.held.slots@;
    if exists|j: int, counts: Arc<MaskedCounts>| #[trigger] before.hit(after, j, counts) {
        let (j, counts) = choose|j: int, counts: Arc<MaskedCounts>| #[trigger]
            before.hit(after, j, counts);
        lemma_hit_keeps_value(before, after, j, counts, key, value);
    } else {
        let k = choose|k: int| 0 <= k < now.len() && (#[trigger] now[k]).key.model() == key.model();
        let slot = now[k];
        assert(now.contains(slot));
        match call {
            CacheCall::Lookup { key: asked, counts } => {
                if counts.weight() <= before.held.bound {
                    let new = Slot {
                        key: asked,
                        value: counts,
                        weight: counts.weight() as u64,
                        touched: after.held.clock,
                    };
                    lemma_apart_push(before.held, new);
                    lemma_within_keeps(slots.push(new), before.held.bound, slot);
                    if slot == new {
                        let i = choose|i: int|
                            0 <= i < slots.len() && (#[trigger] slots[i]).key.model() == key.model()
                                && slots[i].value == value;
                        assert(slots[i].key.model() == asked.model());
                    }
                }
            },
            CacheCall::SetBound { bound_bytes } => {
                lemma_apart(before.held);
                lemma_within_keeps(slots, bound_bytes, slot);
            },
            CacheCall::Forget { layer } => {
                slots.lemma_filter_contains_rev(of_another_layer(layer), slot);
            },
            CacheCall::Prune { token_id } => {
                slots.lemma_filter_contains_rev(of_another_session(token_id), slot);
            },
            CacheCall::Stats => {},
        }
        assert(slots.contains(slot));
        lemma_one_value(before, key, value, slot);
        assert(now[k].value == value);
    }
}

/// One held histogram answers two requests only where they agree in the session, the view, the
/// layer, the level and its version, whether geometry is carried, the row space, the deny state and
/// the fragment; and it does answer every request that agrees in all of them.
pub proof fn law_a_histogram_is_shared_only_by_requests_that_agree(
    a: MaskedCountKey,
    b: MaskedCountKey,
)
    ensures
        a.model() == b.model() <==> {
            &&& a.token_id == b.token_id
            &&& a.view@ == b.view@
            &&& a.layer@ == b.layer@
            &&& a.level == b.level
            &&& a.level_version == b.level_version
            &&& a.geometry == b.geometry
            &&& a.segments_version == b.segments_version
            &&& a.overlay_version == b.overlay_version
            &&& forall|i: int| 0 <= i < 32 ==> a.fragment_identity@[i] == b.fragment_identity@[i]
            &&& a.fragment_watermark == b.fragment_watermark
        },
{
    if a.model() == b.model() {
        assert(a.fragment_identity@ == b.fragment_identity@);
    } else if forall|i: int|
        0 <= i < 32 ==> a.fragment_identity@[i] == b.fragment_identity@[i] {
        assert(a.fragment_identity@ =~= b.fragment_identity@);
    }
}

/// Forgetting a layer drops every entry of that layer and no other, and pruning a session drops
/// every entry of that session and no other; what stays keeps its order, value and age.
pub proof fn law_what_is_dropped_is_the_layers_or_the_sessions_own(
    before: MaskedCountCache,
    call: CacheCall,
    after: MaskedCountCache,
) -> (at: Seq<int>)
    requires
        before.follows(call, after),
        call is Forget || call is Prune,
    ensures
        at.len() == after.held.slots@.len(),
        forall|i: int, j: int| 0 <= i < j < at.len() ==> at[i] < at[j],
        forall|k: int|
            0 <= k < at.len() ==> 0 <= #[trigger] at[k] < before.held.slots@.len()
                && after.held.slots@[k] == before.held.slots@[at[k]],
        call matches CacheCall::Forget { layer } ==> forall|i: int|
            0 <= i < before.held.slots@.len() ==> (at.contains(i) <==> (
            #[trigger] before.held.slots@[i]).key.layer@ != layer),
        call matches CacheCall::Prune { token_id } ==> forall|i: int|
            0 <= i < before.held.slots@.len() ==> (at.contains(i) <==> (
            #[trigger] before.held.slots@[i]).key.token_id != token_id),
        after.hits == before.hits,
        after.misses == before.misses,
        after.held.evictions == before.held.evictions,
        after.held.bound == before.held.bound,
{
    let slots = before.held.slots@;
    let p = match call {
        CacheCall::Forget { layer } => of_another_layer(layer),
        CacheCall::Prune { token_id } => of_another_session(token_id),
        _ => of_another_session(0),
    };
    let at = lemma_filter_positions(slots, p);
    assert forall|i: int| 0 <= i < slots.len() implies (at.contains(i) <==> p(
        #[trigger] slots[i],
    )) by {}
    at
}

} // verus!
