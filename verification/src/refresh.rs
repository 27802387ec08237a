//! The background refresh: after a geometry publication, each resident projection is carried to the
//! new geometry off the request path.

use vstd::prelude::*;

use crate::bitmap::{bits, span};
use crate::projection::{
    appends, counted, law_every_route_gives_the_same_rows, law_extending_is_walking,
    law_rebasing_is_walking, ProjectionInputs, ProjectionRoute, ProjectionRoutes, RowProjection,
};
use crate::row_space::RowSpace;
use crate::seqs::{lemma_filter_empty, lemma_filter_step};
use crate::text::same;

verus! {

/// What a resident entry may contribute to its own replacement.
#[derive(Clone, Copy, Debug, PartialEq, Eq, Structural)]
pub enum Carry {
    /// Nothing to do: the entry already addresses the published geometry, or a later one.
    Skip,
    /// Rebuild from the fragment alone: the entry's projection addresses another prefix's rows.
    Rebuild,
    /// Within one prefix: the previous projection may be extended or rebased.
    Derive,
}

/// What a resident projection is of.
#[derive(Clone, Debug, PartialEq, Eq)]
pub struct RowProjectionKey {
    pub token_id: u64,
    pub slice: String,
    pub segments_version: u64,
    pub prefix: String,
}

/// The geometry that was published.
#[derive(Clone, Debug, PartialEq, Eq)]
pub struct PublishedGeometry {
    pub prefix: String,
    pub segments_version: u64,
}

/// What an entry may contribute under a published geometry.
pub open spec fn carried(key: RowProjectionKey, generation: PublishedGeometry) -> Carry {
    if key.segments_version >= generation.segments_version {
        Carry::Skip
    } else if key.prefix@ == generation.prefix@ {
        Carry::Derive
    } else {
        Carry::Rebuild
    }
}

/// What an entry may contribute under a published geometry. An entry of a later geometry is left
/// alone: rebuilding backwards would hand a session rows that are already superseded.
pub fn carry_for(key: &RowProjectionKey, generation: &PublishedGeometry) -> (carry: Carry)
    ensures
        carry == carried(*key, *generation),
{
    if key.segments_version >= generation.segments_version {
        return Carry::Skip;
    }
    if same(key.prefix.as_str(), generation.prefix.as_str()) {
        Carry::Derive
    } else {
        Carry::Rebuild
    }
}

/// The key an entry is refreshed under: the same token and slice, at the published geometry. The
/// prefix moves with the geometry, so that a request finds the entry.
pub fn next_key(key: &RowProjectionKey, generation: &PublishedGeometry) -> (next: RowProjectionKey)
    ensures
        next.token_id == key.token_id,
        next.slice@ == key.slice@,
        next.segments_version == generation.segments_version,
        next.prefix@ == generation.prefix@,
{
    RowProjectionKey {
        token_id: key.token_id,
        slice: String::from_str(key.slice.as_str()),
        segments_version: generation.segments_version,
        prefix: String::from_str(generation.prefix.as_str()),
    }
}

/// How an entry is refreshed, cheapest first.
#[derive(Clone, Copy, Debug, PartialEq, Eq, Structural)]
pub enum Rung {
    /// Every extent the previous projection covers is still the same segment.
    Extend,
    /// The base is the same, as no flush and no merge rewrites it within one prefix.
    Rebase,
    /// Everything is projected again.
    Build,
}

/// The rung an entry is refreshed by. Only an entry of the same prefix is extended or rebased: a
/// row space does not say which prefix it is of.
pub open spec fn rung_of(carry: Carry, previous: RowProjection, space: RowSpace) -> Rung {
    if carry == Carry::Derive && previous.extends(space) {
        Rung::Extend
    } else if carry == Carry::Derive && previous.rebases(space) {
        Rung::Rebase
    } else {
        Rung::Build
    }
}

/// The rows an entry is refreshed to by a rung.
pub open spec fn refreshed_rows(
    rung: Rung,
    previous: RowProjection,
    inputs: ProjectionInputs,
    space: RowSpace,
) -> Set<u32> {
    let fragment = bits(inputs.fragment);
    match rung {
        Rung::Extend => bits(previous.rows).union(
            space.extents_image(fragment, previous.extents_covered as int),
        ),
        Rung::Rebase => bits(previous.rows).intersect(span(0, previous.base_rows as int)).union(
            space.extents_image(fragment, 0),
        ),
        Rung::Build => match inputs.taken(space) {
            Some(route) => inputs.rows_by(route, space),
            None => space.image(fragment),
        },
    }
}

/// The projection an entry is refreshed to, by the cheapest rung that is exact.
pub fn refreshed(
    carry: Carry,
    previous: &RowProjection,
    inputs: &ProjectionInputs,
    space: &RowSpace,
    routes: &mut ProjectionRoutes,
) -> (projection: RowProjection)
    requires
        space.wf(),
    ensures
        projection.spans(
            refreshed_rows(rung_of(carry, *previous, *space), *previous, *inputs, *space),
            *space,
        ),
        final(routes).forced == old(routes).forced,
        final(routes).counts@ == match rung_of(carry, *previous, *space) {
            Rung::Build => counted(
                old(routes).counts@,
                match inputs.taken(*space) {
                    Some(route) => route,
                    None => ProjectionRoute::Walk,
                },
            ),
            _ => old(routes).counts@,
        },
{
    let derives = match carry {
        Carry::Derive => true,
        _ => false,
    };
    if derives && previous.extends_to(space) {
        previous.extend(&inputs.fragment, space)
    } else if derives && previous.can_rebase_extents(space) {
        previous.rebase_extents(&inputs.fragment, space)
    } else {
        routes.build(inputs, space)
    }
}

/// One slice's published row space.
#[derive(Debug)]
pub struct SliceSpace {
    pub slice: String,
    pub space: RowSpace,
}

/// A resident entry: what it is of, its projection, and what its fragment is rebuilt to, where the
/// fragment can be built now.
#[derive(Debug)]
pub struct Resident {
    pub key: RowProjectionKey,
    pub projection: RowProjection,
    pub inputs: Option<ProjectionInputs>,
}

/// An entry's replacement.
#[derive(Debug)]
pub struct Refreshed {
    pub key: RowProjectionKey,
    pub projection: RowProjection,
}

/// Whether a slice is the first of its name.
pub open spec fn slice_at(spaces: Seq<SliceSpace>, slice: Seq<char>, k: int) -> bool {
    &&& 0 <= k < spaces.len()
    &&& spaces[k].slice@ == slice
    &&& forall|j: int| 0 <= j < k ==> (#[trigger] spaces[j]).slice@ != slice
}

/// The row space of a slice, where the geometry holds one.
pub open spec fn space_of(spaces: Seq<SliceSpace>, slice: Seq<char>) -> Option<RowSpace> {
    if exists|k: int| slice_at(spaces, slice, k) {
        Some(spaces[choose|k: int| slice_at(spaces, slice, k)].space)
    } else {
        None
    }
}

fn find_slice(spaces: &Vec<SliceSpace>, slice: &str) -> (at: Option<usize>)
    ensures
        at is None <==> space_of(spaces@, slice@) is None,
        at matches Some(k) ==> k < spaces@.len() && space_of(spaces@, slice@) == Some(
            spaces@[k as int].space,
        ),
{
    let mut k: usize = 0;
    while k < spaces.len()
        invariant
            k <= spaces@.len(),
            forall|j: int| 0 <= j < k ==> (#[trigger] spaces@[j]).slice@ != slice@,
        decreases spaces@.len() - k,
    {
        if same(spaces[k].slice.as_str(), slice) {
            proof {
                assert(slice_at(spaces@, slice@, k as int));
                let other = choose|j: int| slice_at(spaces@, slice@, j);
                assert(spaces@[other].slice@ == slice@);
                assert(other == k);
            }
            return Some(k);
        }
        k += 1;
    }
    None
}

/// Whether an entry is replaced: it is of an older geometry, its slice is published, and its
/// fragment can be built now.
pub open spec fn replaces(
    entry: Resident,
    generation: PublishedGeometry,
    spaces: Seq<SliceSpace>,
) -> bool {
    &&& carried(entry.key, generation) != Carry::Skip
    &&& space_of(spaces, entry.key.slice@) is Some
    &&& entry.inputs is Some
}

/// Whether this is what an entry is replaced by.
pub open spec fn replaced_by(
    entry: Resident,
    generation: PublishedGeometry,
    spaces: Seq<SliceSpace>,
    refreshed: Refreshed,
) -> bool {
    let space = space_of(spaces, entry.key.slice@)->0;
    &&& refreshed.key.token_id == entry.key.token_id
    &&& refreshed.key.slice@ == entry.key.slice@
    &&& refreshed.key.segments_version == generation.segments_version
    &&& refreshed.key.prefix@ == generation.prefix@
    &&& refreshed.projection.spans(
        refreshed_rows(
            rung_of(carried(entry.key, generation), entry.projection, space),
            entry.projection,
            entry.inputs->0,
            space,
        ),
        space,
    )
}

/// The route counters after the first `n` entries.
pub open spec fn counts_after(
    counts: Seq<u64>,
    entries: Seq<Resident>,
    generation: PublishedGeometry,
    spaces: Seq<SliceSpace>,
    n: int,
) -> Seq<u64>
    decreases n,
{
    if n <= 0 {
        counts
    } else {
        let before = counts_after(counts, entries, generation, spaces, n - 1);
        let entry = entries[n - 1];
        let space = space_of(spaces, entry.key.slice@)->0;
        if replaces(entry, generation, spaces) && rung_of(
            carried(entry.key, generation),
            entry.projection,
            space,
        ) == Rung::Build {
            counted(
                before,
                match entry.inputs->0.taken(space) {
                    Some(route) => route,
                    None => ProjectionRoute::Walk,
                },
            )
        } else {
            before
        }
    }
}

/// What every resident entry is replaced by under a published geometry, in the order of the
/// entries. An entry whose fragment cannot be built now is left, and builds on its next request.
pub fn refresh_resident(
    entries: &Vec<Resident>,
    generation: &PublishedGeometry,
    spaces: &Vec<SliceSpace>,
    routes: &mut ProjectionRoutes,
) -> (out: Vec<Refreshed>)
    requires
        forall|k: int| 0 <= k < spaces@.len() ==> (#[trigger] spaces@[k]).space.wf(),
    ensures
        ({
            let replaced = entries@.filter(
                |entry: Resident| replaces(entry, *generation, spaces@),
            );
            &&& out@.len() == replaced.len()
            &&& forall|j: int|
                0 <= j < out@.len() ==> replaced_by(
                    replaced[j],
                    *generation,
                    spaces@,
                    #[trigger] out@[j],
                )
        }),
        final(routes).forced == old(routes).forced,
        final(routes).counts@ == counts_after(
            old(routes).counts@,
            entries@,
            *generation,
            spaces@,
            entries@.len() as int,
        ),
{
    let mut out: Vec<Refreshed> = Vec::new();
    let ghost passes = |entry: Resident| replaces(entry, *generation, spaces@);
    let mut i: usize = 0;
    proof {
        lemma_filter_empty(entries@, passes);
    }
    while i < entries.len()
        invariant
            i <= entries@.len(),
            forall|k: int| 0 <= k < spaces@.len() ==> (#[trigger] spaces@[k]).space.wf(),
            passes == (|entry: Resident| replaces(entry, *generation, spaces@)),
            out@.len() == entries@.take(i as int).filter(passes).len(),
            forall|j: int|
                0 <= j < out@.len() ==> replaced_by(
                    entries@.take(i as int).filter(passes)[j],
                    *generation,
                    spaces@,
                    #[trigger] out@[j],
                ),
            routes.forced == old(routes).forced,
            routes.counts@ == counts_after(
                old(routes).counts@,
                entries@,
                *generation,
                spaces@,
                i as int,
            ),
        decreases entries@.len() - i,
    {
        let entry = &entries[i];
        proof {
            lemma_filter_step(entries@, i as int, passes);
        }
        let carry = carry_for(&entry.key, generation);
        let skips = match carry {
            Carry::Skip => true,
            _ => false,
        };
        if !skips {
            if let Some(at) = find_slice(spaces, entry.key.slice.as_str()) {
                if let Some(inputs) = &entry.inputs {
                    let space = &spaces[at].space;
                    assert(spaces@[at as int].space.wf());
                    let projection = refreshed(carry, &entry.projection, inputs, space, routes);
                    let key = next_key(&entry.key, generation);
                    out.push(Refreshed { key, projection });
                }
            }
        }
        i += 1;
    }
    proof {
        assert(entries@.take(i as int) =~= entries@);
    }
    out
}

/// A refresh is exact: whichever rung it takes, an entry is refreshed to the fragment's rows in the
/// published row space. Within one prefix the base is the same and no segment id is reused, so a
/// row space that the previous projection extends to appends to the one it was built over.
pub proof fn law_a_refresh_gives_the_fragments_rows(
    carry: Carry,
    previous: RowProjection,
    inputs: ProjectionInputs,
    before: RowSpace,
    after: RowSpace,
)
    requires
        before.wf(),
        after.wf(),
        previous.spans(before.image(bits(inputs.fragment)), before),
        carry == Carry::Derive ==> {
            &&& after.base@ == before.base@
            &&& after.base_rows == before.base_rows
            &&& previous.extends(after) ==> appends(before, after)
        },
        inputs.taken(after) == Some(ProjectionRoute::Split) ==> inputs.splits(after),
    ensures
        refreshed_rows(rung_of(carry, previous, after), previous, inputs, after) == after.image(
            bits(inputs.fragment),
        ),
{
    let fragment = bits(inputs.fragment);
    match rung_of(carry, previous, after) {
        Rung::Extend => {
            law_extending_is_walking(previous, fragment, before, after);
        },
        Rung::Rebase => {
            law_rebasing_is_walking(previous, fragment, before, after);
        },
        Rung::Build => {
            if inputs.taken(after) is Some {
                law_every_route_gives_the_same_rows(inputs, after, inputs.taken(after)->0);
            }
        },
    }
}

/// No refresh pass is in flight. Zero is a real version: the one a freshly built bundle opens at.
pub const NO_REFRESH: u64 = u64::MAX;

/// The claim of the refresh pass in flight: the version it refreshes to.
#[derive(Clone, Copy, Debug, PartialEq, Eq, Structural)]
pub struct InFlight {
    pub version: u64,
}

impl InFlight {
    /// No pass in flight.
    pub fn none() -> (claim: InFlight)
        ensures
            claim.version == NO_REFRESH,
    {
        InFlight { version: NO_REFRESH }
    }

    /// Claim the pass of a version, before the version is served.
    pub fn arm(&mut self, version: u64)
        ensures
            final(self).version == version,
    {
        self.version = version;
    }

    /// Whether a pass is in flight, so that a request that would rebuild is shed.
    pub fn is_armed(&self) -> (yes: bool)
        ensures
            yes == (self.version != NO_REFRESH),
    {
        self.version != NO_REFRESH
    }

    /// Release the claim, only where the pass of this version still holds it: a superseded pass
    /// that finishes late releases nothing.
    pub fn clear_if_current(&mut self, mine: u64)
        ensures
            final(self).version == if old(self).version == mine {
                NO_REFRESH
            } else {
                old(self).version
            },
    {
        if self.version == mine {
            self.version = NO_REFRESH;
        }
    }
}

/// An entry is left alone where it is of the published version or a later one. An earlier one is
/// carried over where it is of the published prefix, and built again where it is of another.
pub proof fn law_only_an_earlier_entry_is_refreshed(
    key: RowProjectionKey,
    generation: PublishedGeometry,
)
    ensures
        carried(key, generation) == Carry::Skip <==> generation.segments_version
            <= key.segments_version,
        carried(key, generation) == Carry::Derive <==> key.segments_version
            < generation.segments_version && key.prefix@ == generation.prefix@,
        carried(key, generation) == Carry::Rebuild <==> key.segments_version
            < generation.segments_version && key.prefix@ != generation.prefix@,
{
}

/// An entry is refreshed over the first row space of its own slice, for the session and the slice
/// it was held for, at the published version and prefix.
pub proof fn law_an_entry_is_refreshed_over_its_own_slice(
    entry: Resident,
    generation: PublishedGeometry,
    spaces: Seq<SliceSpace>,
    refreshed: Refreshed,
) -> (k: int)
    requires
        replaces(entry, generation, spaces),
        replaced_by(entry, generation, spaces, refreshed),
    ensures
        entry.key.segments_version < generation.segments_version,
        entry.inputs is Some,
        0 <= k < spaces.len(),
        spaces[k].slice@ == entry.key.slice@,
        forall|j: int| 0 <= j < k ==> (#[trigger] spaces[j]).slice@ != entry.key.slice@,
        refreshed.key.token_id == entry.key.token_id,
        refreshed.key.slice@ == entry.key.slice@,
        refreshed.key.segments_version == generation.segments_version,
        refreshed.key.prefix@ == generation.prefix@,
        refreshed.projection.base_rows == spaces[k].space.base_rows,
        refreshed.projection.extents_covered == spaces[k].space.extents@.len(),
{
    choose|k: int| slice_at(spaces, entry.key.slice@, k)
}

/// An entry is refreshed exactly where it is of an earlier version than the published one, is held
/// with what it was projected from, and its slice has a row space.
pub proof fn law_an_entry_is_refreshed_where_it_can_be(
    entry: Resident,
    generation: PublishedGeometry,
    spaces: Seq<SliceSpace>,
)
    ensures
        replaces(entry, generation, spaces) <==> {
            &&& entry.key.segments_version < generation.segments_version
            &&& entry.inputs is Some
            &&& exists|k: int|
                0 <= k < spaces.len() && (#[trigger] spaces[k]).slice@ == entry.key.slice@
        },
{
    if exists|k: int| 0 <= k < spaces.len() && (#[trigger] spaces[k]).slice@ == entry.key.slice@ {
        let k = choose|k: int|
            0 <= k < spaces.len() && (#[trigger] spaces[k]).slice@ == entry.key.slice@;
        lemma_first_slice(spaces, entry.key.slice@, k);
    } else if exists|k: int| slice_at(spaces, entry.key.slice@, k) {
        let k = choose|k: int| slice_at(spaces, entry.key.slice@, k);
        assert(spaces[k].slice@ == entry.key.slice@);
    }
}

/// Where a slice has a row space it has a first one.
proof fn lemma_first_slice(spaces: Seq<SliceSpace>, slice: Seq<char>, k: int)
    requires
        0 <= k < spaces.len(),
        spaces[k].slice@ == slice,
    ensures
        exists|j: int| slice_at(spaces, slice, j),
    decreases k,
{
    if exists|j: int| 0 <= j < k && (#[trigger] spaces[j]).slice@ == slice {
        let j = choose|j: int| 0 <= j < k && (#[trigger] spaces[j]).slice@ == slice;
        lemma_first_slice(spaces, slice, j);
    } else {
        assert(slice_at(spaces, slice, k));
    }
}

} // verus!
