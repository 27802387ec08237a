//! The stages a flush is timed in.

use vstd::prelude::*;

verus! {

/// A stage of a flush. The first fifteen run on the executor, the rest on the pool.
#[derive(Clone, Copy, Debug, PartialEq, Eq, Structural)]
pub enum FlushStage {
    /// Planning every view at the tick.
    Plan,
    /// Up to the spawn: the schemas, the descriptors and the context.
    Dispatch,
    /// Composing the extents onto the live columns.
    Compose,
    /// Assembling the side manifest.
    Manifest,
    /// Committing the side manifest.
    Commit,
    /// The new bundle and its row space.
    WithSegment,
    /// Installing the shape memberships.
    ShapesInstall,
    /// Taking the consumed rows out of the buffer.
    BufferRebase,
    /// Deriving the deny state.
    Denied,
    /// Extending the artifact levels.
    Artifacts,
    /// The generation swap.
    Swap,
    /// Rotating the log.
    Rotate,
    /// Dropping the superseded generation.
    DropSuperseded,
    /// A publication that discarded its flush.
    Discarded,
    /// The whole of a publication: it overlaps the stages it is made of.
    PublishWall,
    /// Numbering the terms.
    Promote,
    /// Narrowing each row to its render tail.
    Rows,
    /// Writing the segment.
    Segment,
    /// Writing the postings tier.
    DeltaTier,
    /// One extent per filterable column.
    FilterExtents,
    /// The terms of each entity.
    EntityTerms,
    /// The group-scoped extents.
    ScopedExtents,
    /// The record extent.
    RecordExtent,
    /// The text layers: it overlaps the stages it is made of.
    TextExtents,
    /// Gathering a text column.
    TextRows,
    /// Tokenising and collecting terms.
    TextTokeniseTerms,
    /// Writing the terms.
    TextDict,
    /// Writing the postings.
    TextPostings,
    /// Writing the presence.
    TextPresence,
    /// Digesting the files.
    Digests,
    /// Mapping the segment.
    Reopen,
    /// Resolving the shapes.
    Shapes,
    /// Dropping the plan.
    DropPlan,
    /// An execution that failed.
    Failed,
    /// The whole of an execution: it overlaps the stages it is made of.
    PoolWall,
}

impl FlushStage {
    pub const COUNT: usize = 35;

    /// Every stage the executor runs.
    pub const EXECUTOR: [FlushStage; 15] = [
        FlushStage::Plan,
        FlushStage::Dispatch,
        FlushStage::Compose,
        FlushStage::Manifest,
        FlushStage::Commit,
        FlushStage::WithSegment,
        FlushStage::ShapesInstall,
        FlushStage::BufferRebase,
        FlushStage::Denied,
        FlushStage::Artifacts,
        FlushStage::Swap,
        FlushStage::Rotate,
        FlushStage::DropSuperseded,
        FlushStage::Discarded,
        FlushStage::PublishWall,
    ];

    /// The stages a publication is made of.
    pub const PUBLISH: [FlushStage; 12] = [
        FlushStage::Compose,
        FlushStage::Manifest,
        FlushStage::Commit,
        FlushStage::WithSegment,
        FlushStage::ShapesInstall,
        FlushStage::BufferRebase,
        FlushStage::Denied,
        FlushStage::Artifacts,
        FlushStage::Swap,
        FlushStage::Rotate,
        FlushStage::DropSuperseded,
        FlushStage::Discarded,
    ];

    /// Every stage the pool runs.
    pub const POOL: [FlushStage; 20] = [
        FlushStage::Promote,
        FlushStage::Rows,
        FlushStage::Segment,
        FlushStage::DeltaTier,
        FlushStage::FilterExtents,
        FlushStage::EntityTerms,
        FlushStage::ScopedExtents,
        FlushStage::RecordExtent,
        FlushStage::TextExtents,
        FlushStage::TextRows,
        FlushStage::TextTokeniseTerms,
        FlushStage::TextDict,
        FlushStage::TextPostings,
        FlushStage::TextPresence,
        FlushStage::Digests,
        FlushStage::Reopen,
        FlushStage::Shapes,
        FlushStage::DropPlan,
        FlushStage::Failed,
        FlushStage::PoolWall,
    ];

    /// The stages an execution is made of.
    pub const EXECUTE: [FlushStage; 14] = [
        FlushStage::Promote,
        FlushStage::Rows,
        FlushStage::Segment,
        FlushStage::DeltaTier,
        FlushStage::FilterExtents,
        FlushStage::EntityTerms,
        FlushStage::ScopedExtents,
        FlushStage::RecordExtent,
        FlushStage::TextExtents,
        FlushStage::Digests,
        FlushStage::Reopen,
        FlushStage::Shapes,
        FlushStage::DropPlan,
        FlushStage::Failed,
    ];

    /// The stages the text layers are made of.
    pub const TEXT: [FlushStage; 5] = [
        FlushStage::TextRows,
        FlushStage::TextTokeniseTerms,
        FlushStage::TextDict,
        FlushStage::TextPostings,
        FlushStage::TextPresence,
    ];

    /// The name a stage is published under.
    pub open spec fn published_as(self) -> Seq<char> {
        match self {
            FlushStage::Plan => "plan"@,
            FlushStage::Dispatch => "dispatch"@,
            FlushStage::Compose => "compose"@,
            FlushStage::Manifest => "manifest"@,
            FlushStage::Commit => "manifest_commit"@,
            FlushStage::WithSegment => "with_segment"@,
            FlushStage::ShapesInstall => "shapes_install"@,
            FlushStage::BufferRebase => "buffer_rebase"@,
            FlushStage::Denied => "denied"@,
            FlushStage::Artifacts => "artifacts"@,
            FlushStage::Swap => "swap"@,
            FlushStage::Rotate => "rotate"@,
            FlushStage::DropSuperseded => "drop_superseded"@,
            FlushStage::Discarded => "discarded"@,
            FlushStage::PublishWall => "publish_wall"@,
            FlushStage::Promote => "promote"@,
            FlushStage::Rows => "rows"@,
            FlushStage::Segment => "segment"@,
            FlushStage::DeltaTier => "delta_tier"@,
            FlushStage::FilterExtents => "filter_extents"@,
            FlushStage::EntityTerms => "entity_terms"@,
            FlushStage::ScopedExtents => "scoped_extents"@,
            FlushStage::RecordExtent => "record_extent"@,
            FlushStage::TextExtents => "text_extents"@,
            FlushStage::TextRows => "text_rows"@,
            FlushStage::TextTokeniseTerms => "text_tokenise_terms"@,
            FlushStage::TextDict => "text_dict"@,
            FlushStage::TextPostings => "text_postings"@,
            FlushStage::TextPresence => "text_presence"@,
            FlushStage::Digests => "digests"@,
            FlushStage::Reopen => "reopen"@,
            FlushStage::Shapes => "shapes"@,
            FlushStage::DropPlan => "drop_plan"@,
            FlushStage::Failed => "failed"@,
            FlushStage::PoolWall => "pool_wall"@,
        }
    }

    /// The name a stage is published under.
    pub fn name(self) -> (name: &'static str)
        ensures
            name@ == self.published_as(),
    {
        match self {
            FlushStage::Plan => "plan",
            FlushStage::Dispatch => "dispatch",
            FlushStage::Compose => "compose",
            FlushStage::Manifest => "manifest",
            FlushStage::Commit => "manifest_commit",
            FlushStage::WithSegment => "with_segment",
            FlushStage::ShapesInstall => "shapes_install",
            FlushStage::BufferRebase => "buffer_rebase",
            FlushStage::Denied => "denied",
            FlushStage::Artifacts => "artifacts",
            FlushStage::Swap => "swap",
            FlushStage::Rotate => "rotate",
            FlushStage::DropSuperseded => "drop_superseded",
            FlushStage::Discarded => "discarded",
            FlushStage::PublishWall => "publish_wall",
            FlushStage::Promote => "promote",
            FlushStage::Rows => "rows",
            FlushStage::Segment => "segment",
            FlushStage::DeltaTier => "delta_tier",
            FlushStage::FilterExtents => "filter_extents",
            FlushStage::EntityTerms => "entity_terms",
            FlushStage::ScopedExtents => "scoped_extents",
            FlushStage::RecordExtent => "record_extent",
            FlushStage::TextExtents => "text_extents",
            FlushStage::TextRows => "text_rows",
            FlushStage::TextTokeniseTerms => "text_tokenise_terms",
            FlushStage::TextDict => "text_dict",
            FlushStage::TextPostings => "text_postings",
            FlushStage::TextPresence => "text_presence",
            FlushStage::Digests => "digests",
            FlushStage::Reopen => "reopen",
            FlushStage::Shapes => "shapes",
            FlushStage::DropPlan => "drop_plan",
            FlushStage::Failed => "failed",
            FlushStage::PoolWall => "pool_wall",
        }
    }

    /// A stage's position in the order they are declared in.
    pub open spec fn position(self) -> nat {
        match self {
            FlushStage::Plan => 0,
            FlushStage::Dispatch => 1,
            FlushStage::Compose => 2,
            FlushStage::Manifest => 3,
            FlushStage::Commit => 4,
            FlushStage::WithSegment => 5,
            FlushStage::ShapesInstall => 6,
            FlushStage::BufferRebase => 7,
            FlushStage::Denied => 8,
            FlushStage::Artifacts => 9,
            FlushStage::Swap => 10,
            FlushStage::Rotate => 11,
            FlushStage::DropSuperseded => 12,
            FlushStage::Discarded => 13,
            FlushStage::PublishWall => 14,
            FlushStage::Promote => 15,
            FlushStage::Rows => 16,
            FlushStage::Segment => 17,
            FlushStage::DeltaTier => 18,
            FlushStage::FilterExtents => 19,
            FlushStage::EntityTerms => 20,
            FlushStage::ScopedExtents => 21,
            FlushStage::RecordExtent => 22,
            FlushStage::TextExtents => 23,
            FlushStage::TextRows => 24,
            FlushStage::TextTokeniseTerms => 25,
            FlushStage::TextDict => 26,
            FlushStage::TextPostings => 27,
            FlushStage::TextPresence => 28,
            FlushStage::Digests => 29,
            FlushStage::Reopen => 30,
            FlushStage::Shapes => 31,
            FlushStage::DropPlan => 32,
            FlushStage::Failed => 33,
            FlushStage::PoolWall => 34,
        }
    }

    fn index(self) -> (at: usize)
        ensures
            at == self.position(),
            at < FlushStage::COUNT,
    {
        match self {
            FlushStage::Plan => 0,
            FlushStage::Dispatch => 1,
            FlushStage::Compose => 2,
            FlushStage::Manifest => 3,
            FlushStage::Commit => 4,
            FlushStage::WithSegment => 5,
            FlushStage::ShapesInstall => 6,
            FlushStage::BufferRebase => 7,
            FlushStage::Denied => 8,
            FlushStage::Artifacts => 9,
            FlushStage::Swap => 10,
            FlushStage::Rotate => 11,
            FlushStage::DropSuperseded => 12,
            FlushStage::Discarded => 13,
            FlushStage::PublishWall => 14,
            FlushStage::Promote => 15,
            FlushStage::Rows => 16,
            FlushStage::Segment => 17,
            FlushStage::DeltaTier => 18,
            FlushStage::FilterExtents => 19,
            FlushStage::EntityTerms => 20,
            FlushStage::ScopedExtents => 21,
            FlushStage::RecordExtent => 22,
            FlushStage::TextExtents => 23,
            FlushStage::TextRows => 24,
            FlushStage::TextTokeniseTerms => 25,
            FlushStage::TextDict => 26,
            FlushStage::TextPostings => 27,
            FlushStage::TextPresence => 28,
            FlushStage::Digests => 29,
            FlushStage::Reopen => 30,
            FlushStage::Shapes => 31,
            FlushStage::DropPlan => 32,
            FlushStage::Failed => 33,
            FlushStage::PoolWall => 34,
        }
    }
}

/// The nanoseconds a flush spent in each stage.
#[derive(Debug)]
pub struct FlushLaps {
    pub nanos: [u64; 35],
}

impl FlushLaps {
    /// No time in any stage.
    pub fn none() -> (laps: FlushLaps)
        ensures
            forall|i: int| 0 <= i < 35 ==> laps.nanos@[i] == 0,
    {
        FlushLaps { nanos: [0; 35] }
    }

    /// Charge `elapsed` nanoseconds to a stage.
    pub fn lap(&mut self, stage: FlushStage, elapsed: u64)
        requires
            old(self).nanos@[stage.position() as int] + elapsed <= u64::MAX,
        ensures
            final(self).nanos@ == old(self).nanos@.update(
                stage.position() as int,
                (old(self).nanos@[stage.position() as int] + elapsed) as u64,
            ),
    {
        let at: usize = stage.index();
        let held: u64 = self.nanos[at];
        self.nanos[at] = held + elapsed;
    }
}

/// The executor's stages and the pool's are every stage, each in one of the two. A publication is
/// made of executor stages and an execution of pool stages, neither with the wall it partitions;
/// the text stages are the pool's and no part of an execution's partition.
pub proof fn law_the_stage_sets_partition_the_stages(stage: FlushStage)
    ensures
        FlushStage::EXECUTOR@.contains(stage) != FlushStage::POOL@.contains(stage),
        FlushStage::PUBLISH@.contains(stage) ==> FlushStage::EXECUTOR@.contains(stage)
            && !(stage is PublishWall),
        FlushStage::EXECUTE@.contains(stage) ==> FlushStage::POOL@.contains(stage)
            && !(stage is PoolWall),
        FlushStage::TEXT@.contains(stage) ==> FlushStage::POOL@.contains(stage)
            && !FlushStage::EXECUTE@.contains(stage),
{
    let at = stage.position() as int;
    if at < 15 {
        assert(FlushStage::EXECUTOR@[at] == stage);
        assert forall|k: int| 0 <= k < 20 implies FlushStage::POOL@[k] != stage by {
            assert(FlushStage::POOL@[k].position() == 15 + k);
        }
        assert(!FlushStage::POOL@.contains(stage));
    } else {
        assert(FlushStage::POOL@[at - 15] == stage);
        assert forall|k: int| 0 <= k < 15 implies FlushStage::EXECUTOR@[k] != stage by {
            assert(FlushStage::EXECUTOR@[k].position() == k);
        }
        assert(!FlushStage::EXECUTOR@.contains(stage));
    }
}

} // verus!
