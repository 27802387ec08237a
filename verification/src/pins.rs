//! The pin manager: which superseded geometries a request may still be answered from, and for how
//! long.
//!
//! A pin fixes row-space geometry and never authorisation state, and it is answered from the
//! geometry it names or not at all. A superseded geometry is kept resolvable on a drain list, oldest
//! first, until its time to live runs out. That bites when a pin is presented and not only when a
//! reclaim pass runs.
//!
//! Times are milliseconds on one monotonic clock.

use std::sync::Arc;

use vstd::prelude::*;

use crate::seqs::{lemma_filter_empty, lemma_filter_positions, lemma_filter_step};
use crate::shared::{handles, share};
use crate::text::{decimal, digits, same};

verus! {

/// The drain depth above which an operator should alarm.
pub const DRAIN_DEPTH_ALARM: usize = 1;

/// The ceiling on drain depth, where none is configured.
pub const DEFAULT_DRAIN_DEPTH_MAX: usize = 4;

/// The most sessions one drain entry tracks before it forgets the oldest.
pub const MAX_HOLDERS_PER_ENTRY: usize = 1024;

/// Why a geometry publication was refused.
#[derive(Clone, Copy, Debug, PartialEq, Eq, Structural)]
pub enum GeometryRefusedReason {
    /// The offered version does not strictly exceed the live one.
    SegmentsVersionNotIncreasing,
}

impl GeometryRefusedReason {
    /// What the reason says.
    pub open spec fn text(self) -> Seq<char> {
        "segments_version must strictly increase; a bundle swap that leaves the pin identity unchanged would answer outstanding pins against new geometry (I11)"@
    }

    /// The reason in words.
    pub fn message(&self) -> (text: String)
        ensures
            text@ == self.text(),
    {
        String::from_str(
            "segments_version must strictly increase; a bundle swap that leaves the pin identity unchanged would answer outstanding pins against new geometry (I11)",
        )
    }
}

/// A geometry publication that is refused.
#[derive(Clone, Debug, PartialEq, Eq)]
pub struct GeometryRefused {
    pub live_prefix: String,
    pub live_segments_version: u64,
    pub offered_prefix: String,
    pub offered_segments_version: u64,
    pub reason: GeometryRefusedReason,
}

impl GeometryRefused {
    /// The refusal in words: both identities, and the reason.
    pub fn message(&self) -> (text: String)
        ensures
            text@ == "refusing to publish geometry ('"@ + self.offered_prefix@ + "', "@ + digits(
                self.offered_segments_version as nat,
            ) + ") over live ('"@ + self.live_prefix@ + "', "@ + digits(
                self.live_segments_version as nat,
            ) + "): "@ + self.reason.text(),
    {
        String::from_str("refusing to publish geometry ('").concat(
            self.offered_prefix.as_str(),
        ).concat("', ").concat(decimal(self.offered_segments_version).as_str()).concat(
            ") over live ('",
        ).concat(self.live_prefix.as_str()).concat("', ").concat(
            decimal(self.live_segments_version).as_str(),
        ).concat("): ").concat(self.reason.message().as_str())
    }
}

/// A generation's geometry, and what it holds open.
#[derive(Debug)]
pub struct PinnedGeometry<B> {
    pub prefix: String,
    pub segments_version: u64,
    /// Advisory: never an input to composition.
    pub watermark: u64,
    pub bundle: Arc<B>,
}

/// A pin: geometry identity alone.
#[derive(Clone, Debug, PartialEq, Eq)]
pub struct PinId {
    pub prefix: String,
    pub segments_version: u64,
}

impl<B> PinnedGeometry<B> {
    /// Whether this is the geometry of an identity.
    pub open spec fn is_of(&self, prefix: Seq<char>, segments_version: u64) -> bool {
        self.prefix@ == prefix && self.segments_version == segments_version
    }

    /// The same geometry, held by another handle.
    pub fn shared(&self) -> (other: PinnedGeometry<B>)
        ensures
            same_geometry(other, *self),
    {
        PinnedGeometry {
            prefix: String::from_str(self.prefix.as_str()),
            segments_version: self.segments_version,
            watermark: self.watermark,
            bundle: share(&self.bundle),
        }
    }

    /// The pin that names this geometry.
    pub fn pin_id(&self) -> (pin: PinId)
        ensures
            pin.prefix@ == self.prefix@,
            pin.segments_version == self.segments_version,
    {
        PinId {
            prefix: String::from_str(self.prefix.as_str()),
            segments_version: self.segments_version,
        }
    }
}

/// Whether two geometries are one.
pub open spec fn same_geometry<B>(a: PinnedGeometry<B>, b: PinnedGeometry<B>) -> bool {
    &&& a.prefix@ == b.prefix@
    &&& a.segments_version == b.segments_version
    &&& a.watermark == b.watermark
    &&& a.bundle == b.bundle
}

/// Whether a version may be published over a live geometry: it must strictly increase.
pub fn check_publishable<B>(live: &PinnedGeometry<B>, prefix: &str, segments_version: u64) -> (out:
    Result<(), GeometryRefused>)
    ensures
        out is Ok <==> segments_version > live.segments_version,
        out matches Err(refused) ==> {
            &&& refused.live_prefix@ == live.prefix@
            &&& refused.live_segments_version == live.segments_version
            &&& refused.offered_prefix@ == prefix@
            &&& refused.offered_segments_version == segments_version
            &&& refused.reason == GeometryRefusedReason::SegmentsVersionNotIncreasing
        },
{
    if segments_version > live.segments_version {
        return Ok(());
    }
    Err(
        GeometryRefused {
            live_prefix: String::from_str(live.prefix.as_str()),
            live_segments_version: live.segments_version,
            offered_prefix: String::from_str(prefix),
            offered_segments_version: segments_version,
            reason: GeometryRefusedReason::SegmentsVersionNotIncreasing,
        },
    )
}

/// One superseded geometry, kept resolvable until its time to live runs out.
#[derive(Debug)]
pub struct DrainEntry<B> {
    pub geometry: PinnedGeometry<B>,
    /// When this geometry was superseded.
    pub retired_at: u64,
    /// The sessions holding this entry against the cap, oldest first.
    pub holders: Vec<u64>,
}

/// The holders after a session joins: the oldest is forgotten where the list is full.
pub open spec fn joined(holders: Seq<u64>, token_id: u64) -> Seq<u64> {
    if holders.len() >= MAX_HOLDERS_PER_ENTRY {
        holders.skip(1).push(token_id)
    } else {
        holders.push(token_id)
    }
}

/// Whether so many milliseconds is past a time to live in seconds.
pub open spec fn over_age(retired_at: u64, now: u64, ttl_secs: u64) -> bool {
    elapsed(retired_at, now) >= ttl_secs * 1000
}

/// The milliseconds since a time; none before it.
pub open spec fn elapsed(since: u64, now: u64) -> int {
    if now >= since {
        now - since
    } else {
        0
    }
}

/// Whether an entry is past its time to live.
fn is_over_age(retired_at: u64, now: u64, ttl_secs: u64) -> (yes: bool)
    ensures
        yes == over_age(retired_at, now, ttl_secs),
{
    let since: u64 = if now >= retired_at {
        now - retired_at
    } else {
        0
    };
    since as u128 >= ttl_secs as u128 * 1000
}

impl<B> DrainEntry<B> {
    /// Whether a session holds this entry.
    pub fn holds(&self, token_id: u64) -> (yes: bool)
        ensures
            yes == self.holders@.contains(token_id),
    {
        let mut i: usize = 0;
        while i < self.holders.len()
            invariant
                i <= self.holders@.len(),
                forall|k: int| 0 <= k < i ==> self.holders@[k] != token_id,
            decreases self.holders@.len() - i,
        {
            if self.holders[i] == token_id {
                assert(self.holders@[i as int] == token_id);
                return true;
            }
            i += 1;
        }
        false
    }

    /// Have a session hold this entry, forgetting the oldest holder where the list is full.
    pub fn add_holder(&mut self, token_id: u64)
        ensures
            final(self).geometry == old(self).geometry,
            final(self).retired_at == old(self).retired_at,
            final(self).holders@ == joined(old(self).holders@, token_id),
    {
        if self.holders.len() >= MAX_HOLDERS_PER_ENTRY {
            let _ = self.holders.remove(0);
            assert(self.holders@ =~= old(self).holders@.skip(1));
        }
        self.holders.push(token_id);
    }
}

/// What a pass removed from the drain list.
#[derive(Clone, Debug, PartialEq, Eq)]
pub struct Reclaimed {
    pub prefix: String,
    pub segments_version: u64,
    /// Whether the bundle was held by nothing else when the entry had been removed. Diagnostic,
    /// never a decision.
    pub exclusively_held: bool,
}

/// The operator's gauges.
#[derive(Clone, Copy, Debug, PartialEq, Eq, Structural)]
pub struct PinStats {
    /// Entries on the drain list.
    pub drain_depth: usize,
    /// How often the drain list was taken.
    pub drain_locks: u64,
    /// The age of the oldest entry, in whole seconds.
    pub oldest_retired_secs: Option<u64>,
    /// The time to live, in seconds.
    pub pin_ttl_secs: u64,
}

/// Why a presented pin is refused.
#[derive(Clone, Copy, Debug, PartialEq, Eq, Structural)]
pub enum PinRefused {
    /// The geometry it names is neither live nor resolvable any more.
    Expired,
    /// The session holds as many superseded geometries as it may.
    CapExceeded { held: usize, limit: usize },
}

/// Resolves a request's presented pin against the live geometry.
#[derive(Debug)]
pub struct PinManager<B> {
    pub pin_ttl_secs: u64,
    /// The most superseded geometries one session may hold resolvable at once.
    pub pins_per_session_max: usize,
    pub drain_depth_max: usize,
    /// Superseded geometries, oldest first.
    pub drain: Vec<DrainEntry<B>>,
    pub drain_locks: u64,
}

/// Whether an entry is the first of an identity.
pub open spec fn entry_at<B>(
    drain: Seq<DrainEntry<B>>,
    prefix: Seq<char>,
    segments_version: u64,
    k: int,
) -> bool {
    &&& 0 <= k < drain.len()
    &&& drain[k].geometry.is_of(prefix, segments_version)
    &&& forall|j: int|
        0 <= j < k ==> !(#[trigger] drain[j]).geometry.is_of(prefix, segments_version)
}

/// Whether a drain list holds an identity.
pub open spec fn drains<B>(
    drain: Seq<DrainEntry<B>>,
    prefix: Seq<char>,
    segments_version: u64,
) -> bool {
    exists|k: int|
        0 <= k < drain.len() && (#[trigger] drain[k]).geometry.is_of(prefix, segments_version)
}

/// How many of the first `n` entries a session holds that are not past their time to live.
pub open spec fn held_before<B>(
    drain: Seq<DrainEntry<B>>,
    token_id: u64,
    now: u64,
    ttl_secs: u64,
    n: int,
) -> nat
    decreases n,
{
    if n <= 0 {
        0
    } else {
        held_before(drain, token_id, now, ttl_secs, n - 1) + if !over_age(
            drain[n - 1].retired_at,
            now,
            ttl_secs,
        ) && drain[n - 1].holders@.contains(token_id) {
            1nat
        } else {
            0nat
        }
    }
}

/// Each entry was superseded no earlier than the one before it.
pub open spec fn oldest_first<B>(drain: Seq<DrainEntry<B>>) -> bool {
    forall|i: int, j: int|
        0 <= i < j < drain.len() ==> (#[trigger] drain[i]).retired_at <= (
        #[trigger] drain[j]).retired_at
}

impl<B> PinManager<B> {
    /// The drain list is within its ceiling and oldest first, and no entry tracks more sessions
    /// than it may.
    pub open spec fn wf(&self) -> bool {
        &&& self.drain@.len() <= self.drain_depth_max
        &&& oldest_first(self.drain@)
        &&& forall|k: int|
            0 <= k < self.drain@.len() ==> (#[trigger] self.drain@[k]).holders@.len()
                <= MAX_HOLDERS_PER_ENTRY
    }

    /// Whether two managers are configured alike.
    pub open spec fn configured_as(&self, other: PinManager<B>) -> bool {
        &&& self.pin_ttl_secs == other.pin_ttl_secs
        &&& self.pins_per_session_max == other.pins_per_session_max
        &&& self.drain_depth_max == other.drain_depth_max
    }

    /// A manager with nothing on its drain list.
    pub fn new(pin_ttl_secs: u64, pins_per_session_max: usize, drain_depth_max: usize) -> (pins:
        PinManager<B>)
        ensures
            pins.wf(),
            pins.pin_ttl_secs == pin_ttl_secs,
            pins.pins_per_session_max == pins_per_session_max,
            pins.drain_depth_max == drain_depth_max,
            pins.drain@.len() == 0,
            pins.drain_locks == 0,
    {
        PinManager {
            pin_ttl_secs,
            pins_per_session_max,
            drain_depth_max,
            drain: Vec::new(),
            drain_locks: 0,
        }
    }

    /// The manager after it took its drain list once more.
    pub open spec fn counted(locks: u64) -> u64 {
        ((locks + 1) % 0x1_0000_0000_0000_0000) as u64
    }

    /// Resolve a presented pin against the live geometry, falling back to the drain list. A request
    /// with no pin, or one that names the live geometry, is answered from the live one and does not
    /// take the drain list.
    pub fn resolve(
        &mut self,
        presented: &Option<PinId>,
        token_id: u64,
        live: &PinnedGeometry<B>,
        now: u64,
    ) -> (out: Result<PinnedGeometry<B>, PinRefused>)
        requires
            old(self).wf(),
        ensures
            final(self).wf(),
            final(self).configured_as(*old(self)),
            *presented is None || live.is_of(presented->0.prefix@, presented->0.segments_version)
                ==> {
                &&& out is Ok
                &&& same_geometry(out->Ok_0, *live)
                &&& *final(self) == *old(self)
            },
            *presented is Some && !live.is_of(
                presented->0.prefix@,
                presented->0.segments_version,
            ) ==> old(self).resolves_drained(presented->0, token_id, now, out, *final(self)),
    {
        match presented {
            None => Ok(live.shared()),
            Some(pin) => {
                if same(pin.prefix.as_str(), live.prefix.as_str()) && pin.segments_version
                    == live.segments_version {
                    return Ok(live.shared());
                }
                self.resolve_drained(pin, token_id, now)
            },
        }
    }

    /// What a pin that does not name the live geometry resolves to: the entry it names, where there
    /// is one within its time to live and the session holds it or may hold one more. A session that
    /// did not hold the entry then does.
    pub open spec fn resolves_drained(
        &self,
        pin: PinId,
        token_id: u64,
        now: u64,
        out: Result<PinnedGeometry<B>, PinRefused>,
        after: PinManager<B>,
    ) -> bool {
        let held = held_before(
            self.drain@,
            token_id,
            now,
            self.pin_ttl_secs,
            self.drain@.len() as int,
        );
        &&& after.drain_locks == PinManager::<B>::counted(self.drain_locks)
        &&& if !drains(self.drain@, pin.prefix@, pin.segments_version) {
            &&& out == Err::<PinnedGeometry<B>, PinRefused>(PinRefused::Expired)
            &&& after.drain@ == self.drain@
        } else {
            exists|k: int| #[trigger]
                entry_at(self.drain@, pin.prefix@, pin.segments_version, k) && {
                    let entry = self.drain@[k];
                    if over_age(entry.retired_at, now, self.pin_ttl_secs) {
                        &&& out == Err::<PinnedGeometry<B>, PinRefused>(PinRefused::Expired)
                        &&& after.drain@ == self.drain@
                    } else if entry.holders@.contains(token_id) {
                        &&& out is Ok && same_geometry(out->Ok_0, entry.geometry)
                        &&& after.drain@ == self.drain@
                    } else if held >= self.pins_per_session_max {
                        &&& out == Err::<PinnedGeometry<B>, PinRefused>(
                            PinRefused::CapExceeded {
                                held: held as usize,
                                limit: self.pins_per_session_max,
                            },
                        )
                        &&& after.drain@ == self.drain@
                    } else {
                        &&& out is Ok && same_geometry(out->Ok_0, entry.geometry)
                        &&& after.drain@.len() == self.drain@.len()
                        &&& forall|j: int|
                            0 <= j < self.drain@.len() && j != k ==> (#[trigger] after.drain@[j])
                                == self.drain@[j]
                        &&& after.drain@[k].geometry == entry.geometry
                        &&& after.drain@[k].retired_at == entry.retired_at
                        &&& after.drain@[k].holders@ == joined(entry.holders@, token_id)
                    }
                }
        }
    }

    /// A presented pin that does not name the live geometry.
    fn resolve_drained(&mut self, pin: &PinId, token_id: u64, now: u64) -> (out: Result<
        PinnedGeometry<B>,
        PinRefused,
    >)
        requires
            old(self).wf(),
        ensures
            final(self).wf(),
            final(self).configured_as(*old(self)),
            old(self).resolves_drained(*pin, token_id, now, out, *final(self)),
    {
        let index: Option<usize> = self.take_drain(pin);
        let at: usize = match index {
            Some(at) => at,
            None => return Err(PinRefused::Expired),
        };
        if is_over_age(self.drain[at].retired_at, now, self.pin_ttl_secs) {
            return Err(PinRefused::Expired);
        }
        if !self.drain[at].holds(token_id) {
            let held: usize = self.held_by(token_id, now);
            if held >= self.pins_per_session_max {
                return Err(PinRefused::CapExceeded { held, limit: self.pins_per_session_max });
            }
            self.drain[at].add_holder(token_id);
        }
        Ok(self.drain[at].geometry.shared())
    }

    /// Take the drain list, and find the first entry that a pin names.
    fn take_drain(&mut self, pin: &PinId) -> (at: Option<usize>)
        ensures
            final(self).configured_as(*old(self)),
            final(self).drain == old(self).drain,
            final(self).drain_locks == PinManager::<B>::counted(old(self).drain_locks),
            at is Some <==> drains(old(self).drain@, pin.prefix@, pin.segments_version),
            at matches Some(k) ==> entry_at(
                old(self).drain@,
                pin.prefix@,
                pin.segments_version,
                k as int,
            ),
    {
        self.drain_locks = self.drain_locks.wrapping_add(1);
        let mut k: usize = 0;
        while k < self.drain.len()
            invariant
                k <= self.drain@.len(),
                self.configured_as(*old(self)),
                self.drain == old(self).drain,
                self.drain_locks == PinManager::<B>::counted(old(self).drain_locks),
                forall|j: int|
                    0 <= j < k ==> !(#[trigger] self.drain@[j]).geometry.is_of(
                        pin.prefix@,
                        pin.segments_version,
                    ),
            decreases self.drain@.len() - k,
        {
            if self.drain[k].geometry.segments_version == pin.segments_version && same(
                self.drain[k].geometry.prefix.as_str(),
                pin.prefix.as_str(),
            ) {
                assert(self.drain@[k as int].geometry.is_of(pin.prefix@, pin.segments_version));
                return Some(k);
            }
            k += 1;
        }
        None
    }

    /// How many entries a session holds that are not past their time to live.
    fn held_by(&self, token_id: u64, now: u64) -> (held: usize)
        ensures
            held == held_before(
                self.drain@,
                token_id,
                now,
                self.pin_ttl_secs,
                self.drain@.len() as int,
            ),
    {
        let mut held: usize = 0;
        let total: usize = self.drain.len();
        let mut k: usize = 0;
        while k < total
            invariant
                k <= total == self.drain@.len(),
                held == held_before(self.drain@, token_id, now, self.pin_ttl_secs, k as int) <= k,
            decreases total - k,
        {
            if !is_over_age(self.drain[k].retired_at, now, self.pin_ttl_secs)
                && self.drain[k].holds(token_id) {
                held = held + 1;
            }
            k += 1;
        }
        held
    }

    /// Whether a superseded geometry was put on the drain list, and the list trimmed to its ceiling.
    pub open spec fn retires(
        &self,
        superseded: PinnedGeometry<B>,
        live_prefix: Seq<char>,
        live_segments_version: u64,
        now: u64,
        out: Seq<Reclaimed>,
        after: PinManager<B>,
    ) -> bool {
        &&& superseded.is_of(live_prefix, live_segments_version) ==> {
            &&& after == *self
            &&& out.len() == 0
        }
        &&& !superseded.is_of(live_prefix, live_segments_version) ==> {
            let over = self.over() as int;
            &&& after.drain_locks == PinManager::<B>::counted(self.drain_locks)
            &&& after.drain@.len() == self.drain@.len() + 1 - over
            &&& forall|k: int|
                over <= k < self.drain@.len() ==> after.drain@[k - over]
                    == #[trigger] self.drain@[k]
            &&& over <= self.drain@.len() ==> {
                let last = after.drain@.last();
                &&& same_geometry(last.geometry, superseded)
                &&& last.retired_at == now
                &&& last.holders@.len() == 0
            }
            &&& out.len() == over
            &&& forall|k: int|
                0 <= k < over ==> (#[trigger] out[k]).prefix@ == if k
                    < self.drain@.len() {
                    self.drain@[k].geometry.prefix@
                } else {
                    superseded.prefix@
                } && out[k].segments_version == if k < self.drain@.len() {
                    self.drain@[k].geometry.segments_version
                } else {
                    superseded.segments_version
                }
        }
    }

    /// Whether every entry past its time to live was removed.
    pub open spec fn reclaims(&self, now: u64, out: Seq<Reclaimed>, after: PinManager<B>) -> bool {
        let ttl_secs = self.pin_ttl_secs;
        let expired = self.drain@.filter(
            |entry: DrainEntry<B>| over_age(entry.retired_at, now, ttl_secs),
        );
        &&& after.drain_locks == PinManager::<B>::counted(self.drain_locks)
        &&& after.drain@ == self.drain@.filter(
            |entry: DrainEntry<B>| !over_age(entry.retired_at, now, ttl_secs),
        )
        &&& out.len() == expired.len()
        &&& forall|k: int|
            0 <= k < out.len() ==> (#[trigger] out[k]).prefix@ == expired[k].geometry.prefix@
                && out[k].segments_version == expired[k].geometry.segments_version
    }

    /// Put a superseded geometry on the drain list, and trim the list to its ceiling, oldest first.
    /// One that is still live is never drained.
    pub fn retire(
        &mut self,
        superseded: &PinnedGeometry<B>,
        live_prefix: &str,
        live_segments_version: u64,
        now: u64,
    ) -> (out: Vec<Reclaimed>)
        requires
            old(self).wf(),
            old(self).drain@.len() < usize::MAX,
            forall|k: int|
                0 <= k < old(self).drain@.len() ==> (#[trigger] old(self).drain@[k]).retired_at
                    <= now,
        ensures
            final(self).wf(),
            final(self).configured_as(*old(self)),
            old(self).retires(
                *superseded,
                live_prefix@,
                live_segments_version,
                now,
                out@,
                *final(self),
            ),
    {
        if same(superseded.prefix.as_str(), live_prefix) && superseded.segments_version
            == live_segments_version {
            return Vec::new();
        }
        self.drain_locks = self.drain_locks.wrapping_add(1);
        self.drain.push(
            DrainEntry { geometry: superseded.shared(), retired_at: now, holders: Vec::new() },
        );
        let ghost whole = self.drain@;
        assert(oldest_first(whole));
        let mut out: Vec<Reclaimed> = Vec::new();
        let ghost over = old(self).over() as int;
        let ghost mut gone: int = 0;
        assert(self.drain@ =~= whole.skip(0));
        while self.drain.len() > self.drain_depth_max
            invariant
                0 <= gone <= over <= whole.len(),
                over == if whole.len() > self.drain_depth_max {
                    whole.len() - self.drain_depth_max
                } else {
                    0
                },
                self.configured_as(*old(self)),
                self.drain_locks == PinManager::<B>::counted(old(self).drain_locks),
                self.drain@ == whole.skip(gone),
                out@.len() == gone,
                forall|k: int|
                    0 <= k < gone ==> (#[trigger] out@[k]).prefix@ == whole[k].geometry.prefix@
                        && out@[k].segments_version == whole[k].geometry.segments_version,
            decreases self.drain@.len(),
        {
            let entry = self.drain.remove(0);
            out.push(dropped(entry));
            proof {
                gone = gone + 1;
                assert(self.drain@ =~= whole.skip(gone));
            }
        }
        proof {
            assert forall|i: int, j: int| 0 <= i < j < self.drain@.len() implies (
            #[trigger] self.drain@[i]).retired_at <= (#[trigger] self.drain@[j]).retired_at by {
                assert(whole[i + gone].retired_at <= whole[j + gone].retired_at);
            }
            assert forall|k: int| 0 <= k < self.drain@.len() implies (
            #[trigger] self.drain@[k]).holders@.len() <= MAX_HOLDERS_PER_ENTRY by {
                assert(self.drain@[k] == whole[k + gone]);
            }
        }
        out
    }

    /// How many entries one more takes the drain list past its ceiling.
    pub open spec fn over(&self) -> nat {
        if self.drain@.len() + 1 > self.drain_depth_max {
            (self.drain@.len() + 1 - self.drain_depth_max) as nat
        } else {
            0
        }
    }

    /// One reclaim pass: every entry past its time to live is removed, whatever still holds it, and
    /// then dropped.
    pub fn reclaim(&mut self, now: u64) -> (out: Vec<Reclaimed>)
        requires
            old(self).wf(),
        ensures
            final(self).wf(),
            final(self).configured_as(*old(self)),
            old(self).reclaims(now, out@, *final(self)),
    {
        self.drain_locks = self.drain_locks.wrapping_add(1);
        let ghost whole = self.drain@;
        let ttl: u64 = self.pin_ttl_secs;
        let ghost stays = |entry: DrainEntry<B>| !over_age(entry.retired_at, now, ttl);
        let ghost goes = |entry: DrainEntry<B>| over_age(entry.retired_at, now, ttl);
        let ghost mut seen: int = 0;
        let mut out: Vec<Reclaimed> = Vec::new();
        let mut i: usize = 0;
        proof {
            lemma_filter_empty(whole, stays);
            lemma_filter_empty(whole, goes);
            assert(self.drain@ =~= whole.take(0).filter(stays) + whole.skip(0));
        }
        while i < self.drain.len()
            invariant
                self.configured_as(*old(self)),
                ttl == self.pin_ttl_secs,
                self.drain_locks == PinManager::<B>::counted(old(self).drain_locks),
                stays == (|entry: DrainEntry<B>| !over_age(entry.retired_at, now, ttl)),
                goes == (|entry: DrainEntry<B>| over_age(entry.retired_at, now, ttl)),
                0 <= seen <= whole.len(),
                i == whole.take(seen).filter(stays).len(),
                self.drain@ == whole.take(seen).filter(stays) + whole.skip(seen),
                out@.len() == whole.take(seen).filter(goes).len(),
                forall|k: int|
                    0 <= k < out@.len() ==> (#[trigger] out@[k]).prefix@ == whole.take(seen).filter(
                        goes,
                    )[k].geometry.prefix@ && out@[k].segments_version == whole.take(seen).filter(
                        goes,
                    )[k].geometry.segments_version,
            decreases self.drain@.len() - i,
        {
            proof {
                lemma_filter_step(whole, seen, stays);
                lemma_filter_step(whole, seen, goes);
                assert(self.drain@[i as int] == whole.skip(seen)[0]);
            }
            if is_over_age(self.drain[i].retired_at, now, ttl) {
                let entry = self.drain.remove(i);
                out.push(dropped(entry));
            } else {
                i += 1;
            }
            proof {
                seen = seen + 1;
                assert(self.drain@ =~= whole.take(seen).filter(stays) + whole.skip(seen));
            }
        }
        proof {
            assert(whole.skip(seen).len() == 0);
            assert(whole.take(seen) =~= whole);
            assert(self.drain@ =~= whole.filter(stays));
            lemma_kept_in_order(whole, stays);
        }
        out
    }

    /// The operator's gauges.
    pub fn stats(&self, now: u64) -> (stats: PinStats)
        ensures
            stats.drain_depth == self.drain@.len(),
            stats.drain_locks == self.drain_locks,
            stats.pin_ttl_secs == self.pin_ttl_secs,
            stats.oldest_retired_secs is None <==> self.drain@.len() == 0,
            stats.oldest_retired_secs matches Some(secs) ==> secs == elapsed(
                self.drain@[0].retired_at,
                now,
            ) / 1000,
    {
        let oldest: Option<u64> = if self.drain.len() == 0 {
            None
        } else {
            let retired_at: u64 = self.drain[0].retired_at;
            Some(
                if now >= retired_at {
                    (now - retired_at) / 1000
                } else {
                    0
                },
            )
        };
        PinStats {
            drain_depth: self.drain.len(),
            drain_locks: self.drain_locks,
            oldest_retired_secs: oldest,
            pin_ttl_secs: self.pin_ttl_secs,
        }
    }
}

/// A removed entry's geometry, of whose bundle there were `handles` handles at the removal: one, the
/// entry's own, where nothing else held it.
pub fn reclaimed<B>(geometry: PinnedGeometry<B>, handles: usize) -> (out: Reclaimed)
    ensures
        out.prefix@ == geometry.prefix@,
        out.segments_version == geometry.segments_version,
        out.exclusively_held == (handles == 1),
{
    Reclaimed {
        prefix: geometry.prefix,
        segments_version: geometry.segments_version,
        exclusively_held: handles == 1,
    }
}

/// An entry that was removed, dropped. How many handles there are on its bundle is asked here, and
/// [`reclaimed`] says what follows from the count.
fn dropped<B>(entry: DrainEntry<B>) -> (out: Reclaimed)
    ensures
        out.prefix@ == entry.geometry.prefix@,
        out.segments_version == entry.geometry.segments_version,
{
    let count: usize = handles(&entry.geometry.bundle);
    reclaimed(entry.geometry, count)
}

/// What a filter keeps of a drain list is within its bounds and in its order.
proof fn lemma_kept_in_order<B>(drain: Seq<DrainEntry<B>>, p: spec_fn(DrainEntry<B>) -> bool)
    requires
        oldest_first(drain),
        forall|k: int|
            0 <= k < drain.len() ==> (#[trigger] drain[k]).holders@.len() <= MAX_HOLDERS_PER_ENTRY,
    ensures
        drain.filter(p).len() <= drain.len(),
        oldest_first(drain.filter(p)),
        forall|k: int|
            0 <= k < drain.filter(p).len() ==> (#[trigger] drain.filter(p)[k]).holders@.len()
                <= MAX_HOLDERS_PER_ENTRY,
        forall|k: int|
            0 <= k < drain.filter(p).len() ==> drain.contains(#[trigger] drain.filter(p)[k]),
    decreases drain.len(),
{
    reveal(Seq::filter);
    if drain.len() > 0 {
        let rest = drain.drop_last();
        assert forall|i: int, j: int| 0 <= i < j < rest.len() implies (
        #[trigger] rest[i]).retired_at <= (#[trigger] rest[j]).retired_at by {
            assert(drain[i].retired_at <= drain[j].retired_at);
        }
        assert forall|k: int| 0 <= k < rest.len() implies (#[trigger] rest[k]).holders@.len()
            <= MAX_HOLDERS_PER_ENTRY by {
            assert(rest[k] == drain[k]);
        }
        lemma_kept_in_order(rest, p);
        let kept = drain.filter(p);
        assert forall|k: int| 0 <= k < kept.len() implies drain.contains(#[trigger] kept[k]) by {
            if k < rest.filter(p).len() {
                assert(kept[k] == rest.filter(p)[k]);
                let j = choose|j: int| 0 <= j < rest.len() && rest[j] == kept[k];
                assert(drain[j] == kept[k]);
            } else {
                assert(kept[k] == drain.last());
            }
        }
        assert forall|i: int, j: int| 0 <= i < j < kept.len() implies (
        #[trigger] kept[i]).retired_at <= (#[trigger] kept[j]).retired_at by {
            assert(kept[i] == rest.filter(p)[i]);
            if j < rest.filter(p).len() {
                assert(kept[j] == rest.filter(p)[j]);
            } else {
                assert(rest.contains(rest.filter(p)[i]));
                let d = choose|d: int| 0 <= d < rest.len() && rest[d] == kept[i];
                assert(drain[d].retired_at <= drain[drain.len() - 1].retired_at);
            }
        }
    }
}

/// The gauge of the oldest entry tells exactly whether one is past its time to live: it is at or
/// past the time to live where one is, and below it where none is.
pub proof fn law_the_oldest_entry_tells_whether_one_is_over_age<B>(
    pins: PinManager<B>,
    now: u64,
    oldest_secs: u64,
)
    requires
        pins.wf(),
        pins.drain@.len() > 0,
        oldest_secs == elapsed(pins.drain@[0].retired_at, now) / 1000,
    ensures
        oldest_secs >= pins.pin_ttl_secs <==> exists|k: int|
            0 <= k < pins.drain@.len() && over_age(
                (#[trigger] pins.drain@[k]).retired_at,
                now,
                pins.pin_ttl_secs,
            ),
{
    if exists|k: int|
        0 <= k < pins.drain@.len() && over_age(
            (#[trigger] pins.drain@[k]).retired_at,
            now,
            pins.pin_ttl_secs,
        ) {
        let k = choose|k: int|
            0 <= k < pins.drain@.len() && over_age(
                (#[trigger] pins.drain@[k]).retired_at,
                now,
                pins.pin_ttl_secs,
            );
        if k > 0 {
            assert(pins.drain@[0].retired_at <= pins.drain@[k].retired_at);
        }
    }
    if oldest_secs >= pins.pin_ttl_secs {
        assert(over_age(pins.drain@[0].retired_at, now, pins.pin_ttl_secs));
    }
}

/// A pin is answered from the geometry it names or refused: never from another.
pub proof fn law_a_pin_is_answered_from_its_own_geometry<B>(
    pins: PinManager<B>,
    pin: PinId,
    token_id: u64,
    now: u64,
    out: Result<PinnedGeometry<B>, PinRefused>,
    after: PinManager<B>,
)
    requires
        pins.resolves_drained(pin, token_id, now, out, after),
        out is Ok,
    ensures
        out->Ok_0.is_of(pin.prefix@, pin.segments_version),
{
}

/// What a session holds after one entry changed its holders: more only where that entry is one it
/// did not hold.
proof fn lemma_held_after<B>(
    before: Seq<DrainEntry<B>>,
    after: Seq<DrainEntry<B>>,
    k: int,
    session: u64,
    now: u64,
    ttl_secs: u64,
    n: int,
)
    requires
        0 <= k < before.len() == after.len(),
        n <= before.len(),
        forall|j: int| 0 <= j < before.len() && j != k ==> (#[trigger] after[j]) == before[j],
        after[k].retired_at == before[k].retired_at,
    ensures
        held_before(after, session, now, ttl_secs, n) <= held_before(
            before,
            session,
            now,
            ttl_secs,
            n,
        ) + if k < n && after[k].holders@.contains(session) && !before[k].holders@.contains(
            session,
        ) {
            1nat
        } else {
            0
        },
    decreases n,
{
    if n > 0 {
        lemma_held_after(before, after, k, session, now, ttl_secs, n - 1);
        if n - 1 != k {
            assert(after[n - 1] == before[n - 1]);
        }
    }
}

/// No session comes to hold more superseded geometries than it may: a resolve leaves every session
/// that was within the cap within it.
pub proof fn law_a_session_keeps_to_its_cap<B>(
    pins: PinManager<B>,
    pin: PinId,
    token_id: u64,
    now: u64,
    out: Result<PinnedGeometry<B>, PinRefused>,
    after: PinManager<B>,
    session: u64,
)
    requires
        pins.resolves_drained(pin, token_id, now, out, after),
        held_before(pins.drain@, session, now, pins.pin_ttl_secs, pins.drain@.len() as int)
            <= pins.pins_per_session_max,
    ensures
        held_before(after.drain@, session, now, pins.pin_ttl_secs, after.drain@.len() as int)
            <= pins.pins_per_session_max,
{
    if after.drain@ != pins.drain@ {
        let k = choose|k: int| #[trigger]
            entry_at(pins.drain@, pin.prefix@, pin.segments_version, k);
        assert forall|j: int| #[trigger]
            entry_at(pins.drain@, pin.prefix@, pin.segments_version, j) implies j == k by {
            if j < k {
                assert(!pins.drain@[j].geometry.is_of(pin.prefix@, pin.segments_version));
            }
        }
        lemma_held_after(
            pins.drain@,
            after.drain@,
            k,
            session,
            now,
            pins.pin_ttl_secs,
            pins.drain@.len() as int,
        );
        let holders = pins.drain@[k].holders@;
        if session != token_id && joined(holders, token_id).contains(session) {
            let i = choose|i: int|
                0 <= i < joined(holders, token_id).len() && joined(holders, token_id)[i] == session;
            assert(holders.contains(session));
        }
    }
}

/// A drained geometry is over age exactly where its time to live, in seconds, has gone by since it
/// was superseded, in milliseconds; one that a later clock reading supersedes is of no age.
pub proof fn law_a_drained_geometry_ages_by_the_clock(retired_at: u64, now: u64, ttl_secs: u64)
    ensures
        now >= retired_at ==> (over_age(retired_at, now, ttl_secs) <==> retired_at + ttl_secs * 1000
            <= now),
        now < retired_at ==> (over_age(retired_at, now, ttl_secs) <==> ttl_secs == 0),
{
}

/// A pin that does not name the live geometry is answered with the first drained geometry of its
/// prefix and version, where there is one within its time to live, and the session holds it or has
/// room for one more. It is refused as expired where there is none such, and for the cap only where
/// the session does not hold the geometry.
pub proof fn law_a_drained_pin_is_answered_while_it_lasts<B>(
    pins: PinManager<B>,
    pin: PinId,
    token_id: u64,
    now: u64,
    out: Result<PinnedGeometry<B>, PinRefused>,
    after: PinManager<B>,
) -> (k: int)
    requires
        pins.resolves_drained(pin, token_id, now, out, after),
    ensures
        0 <= k <= pins.drain@.len(),
        forall|j: int|
            0 <= j < k ==> !((#[trigger] pins.drain@[j]).geometry.prefix@ == pin.prefix@
                && pins.drain@[j].geometry.segments_version == pin.segments_version),
        k == pins.drain@.len() ==> out == Err::<PinnedGeometry<B>, PinRefused>(PinRefused::Expired),
        k < pins.drain@.len() ==> {
            let entry = pins.drain@[k];
            let expired = if now >= entry.retired_at {
                entry.retired_at + pins.pin_ttl_secs * 1000 <= now
            } else {
                pins.pin_ttl_secs == 0
            };
            &&& entry.geometry.prefix@ == pin.prefix@
            &&& entry.geometry.segments_version == pin.segments_version
            &&& out == Err::<PinnedGeometry<B>, PinRefused>(PinRefused::Expired) <==> expired
            &&& !expired && entry.holders@.contains(token_id) ==> out is Ok && after.drain@
                == pins.drain@
            &&& out is Ok ==> out->Ok_0.prefix@ == pin.prefix@ && out->Ok_0.segments_version
                == pin.segments_version && after.drain@.len() == pins.drain@.len()
                && after.drain@[k].holders@.contains(token_id)
            &&& out is Err ==> after.drain@ == pins.drain@
        },
{
    if !drains(pins.drain@, pin.prefix@, pin.segments_version) {
        pins.drain@.len() as int
    } else {
        let k = choose|k: int| #[trigger]
            entry_at(pins.drain@, pin.prefix@, pin.segments_version, k);
        assert(joined(pins.drain@[k].holders@, token_id).last() == token_id);
        k
    }
}

/// The holders of a drained geometry after a session joins end with the session, keep the others in
/// their order, and lose the oldest only where the list was full.
pub proof fn law_a_session_joins_behind_the_holders(holders: Seq<u64>, token_id: u64)
    requires
        holders.len() <= MAX_HOLDERS_PER_ENTRY,
    ensures
        ({
            let after = joined(holders, token_id);
            let lost: int = if holders.len() < MAX_HOLDERS_PER_ENTRY { 0 } else { 1 };
            &&& after.len() == holders.len() + 1 - lost
            &&& after.last() == token_id
            &&& forall|i: int| 0 <= i < after.len() - 1 ==> (#[trigger] after[i]) == holders[i + lost]
        }),
{
}

/// A superseded geometry goes onto the drain list, and just as many of the oldest leave it as keeps
/// the list within its depth.
pub proof fn law_the_drain_list_loses_no_more_than_it_must<B>(pins: PinManager<B>)
    requires
        pins.wf(),
    ensures
        pins.drain@.len() + 1 - pins.over() <= pins.drain_depth_max,
        pins.drain@.len() < pins.drain_depth_max ==> pins.over() == 0,
        pins.drain@.len() == pins.drain_depth_max ==> pins.over() == 1,
{
}

/// A superseded geometry is drained after every other, and none is lost unsaid: what was trimmed,
/// followed by what is on the drain list, is what was on the list followed by the superseded
/// geometry. One that is still live is not drained.
pub proof fn law_a_superseded_geometry_is_drained_last<B>(
    pins: PinManager<B>,
    superseded: PinnedGeometry<B>,
    live_prefix: Seq<char>,
    live_segments_version: u64,
    now: u64,
    out: Seq<Reclaimed>,
    after: PinManager<B>,
    k: int,
)
    requires
        pins.wf(),
        after.wf(),
        after.configured_as(pins),
        pins.retires(superseded, live_prefix, live_segments_version, now, out, after),
    ensures
        superseded.prefix@ == live_prefix && superseded.segments_version == live_segments_version
            ==> after == pins && out.len() == 0,
        !(superseded.prefix@ == live_prefix && superseded.segments_version
            == live_segments_version) ==> {
            let gone = out.len() as int;
            &&& gone + after.drain@.len() == pins.drain@.len() + 1
            &&& after.drain@.len() <= pins.drain_depth_max
            &&& gone > 0 ==> after.drain@.len() == pins.drain_depth_max
            &&& 0 <= k < gone && k < pins.drain@.len() ==> out[k].prefix@
                == pins.drain@[k].geometry.prefix@ && out[k].segments_version
                == pins.drain@[k].geometry.segments_version
            &&& gone <= k < pins.drain@.len() ==> after.drain@[k - gone] == pins.drain@[k]
            &&& gone <= pins.drain@.len() ==> {
                let last = after.drain@[after.drain@.len() - 1];
                &&& last.geometry.prefix@ == superseded.prefix@
                &&& last.geometry.segments_version == superseded.segments_version
                &&& last.geometry.watermark == superseded.watermark
                &&& last.geometry.bundle == superseded.bundle
                &&& last.retired_at == now
                &&& last.holders@.len() == 0
            }
            &&& gone > pins.drain@.len() ==> out[gone - 1].prefix@ == superseded.prefix@ && out[gone
                - 1].segments_version == superseded.segments_version
        },
{
}

/// A reclaim pass keeps every drained geometry whose time to live has not gone by, as it is and in
/// its order, and names every other one, in its order too.
pub proof fn law_a_reclaim_names_what_it_removes<B>(
    pins: PinManager<B>,
    now: u64,
    out: Seq<Reclaimed>,
    after: PinManager<B>,
) -> (at: (Seq<int>, Seq<int>))
    requires
        pins.reclaims(now, out, after),
    ensures
        ({
            let (kept, gone) = at;
            &&& kept.len() == after.drain@.len()
            &&& gone.len() == out.len()
            &&& forall|i: int, j: int| 0 <= i < j < kept.len() ==> kept[i] < kept[j]
            &&& forall|i: int, j: int| 0 <= i < j < gone.len() ==> gone[i] < gone[j]
            &&& forall|k: int|
                0 <= k < kept.len() ==> 0 <= #[trigger] kept[k] < pins.drain@.len()
                    && after.drain@[k] == pins.drain@[kept[k]]
            &&& forall|k: int|
                0 <= k < gone.len() ==> 0 <= #[trigger] gone[k] < pins.drain@.len() && out[k].prefix@
                    == pins.drain@[gone[k]].geometry.prefix@ && out[k].segments_version
                    == pins.drain@[gone[k]].geometry.segments_version
            &&& forall|i: int|
                0 <= i < pins.drain@.len() && (#[trigger] pins.drain@[i]).retired_at <= now ==> {
                    &&& gone.contains(i) <==> pins.drain@[i].retired_at + pins.pin_ttl_secs * 1000
                        <= now
                    &&& kept.contains(i) <==> now < pins.drain@[i].retired_at + pins.pin_ttl_secs
                        * 1000
                }
        }),
{
    let drain = pins.drain@;
    let ttl_secs = pins.pin_ttl_secs;
    let stays = |entry: DrainEntry<B>| !over_age(entry.retired_at, now, ttl_secs);
    let goes = |entry: DrainEntry<B>| over_age(entry.retired_at, now, ttl_secs);
    let kept = lemma_filter_positions(drain, stays);
    let gone = lemma_filter_positions(drain, goes);
    assert forall|i: int| 0 <= i < drain.len() implies (gone.contains(i) <==> goes(
        #[trigger] drain[i],
    )) && (kept.contains(i) <==> stays(drain[i])) by {
        assert(stays(drain[i]) || goes(drain[i]));
    }
    (kept, gone)
}

} // verus!
