//! The row-space merge: collapsing an adjacent run of one view's flushed segments into one segment.
//!
//! A merge keeps every row and takes extents only, leaving the base alone. Segments are named by
//! id, never by index: ids are never reused, so one still present at publication is the segment the
//! merge consumed, even if a flush published meanwhile.

use vstd::prelude::*;

use crate::seqs::{
    lemma_filter_empty, lemma_filter_members, lemma_filter_positions, lemma_filter_step,
};
use crate::text::{find, lists, same, starts_with};

verus! {

/// An extent a merge may consume.
#[derive(Debug)]
pub struct MergeExtent {
    pub seg_id: String,
    pub row_base: u32,
    pub row_count: u32,
    pub entity_lo: u64,
    pub entity_hi: u64,
}

/// A view's extents, in listed order.
#[derive(Debug)]
pub struct ViewExtents {
    pub view: String,
    /// The view's path below its partition.
    pub view_rel: String,
    pub incarnation: u64,
    /// Whether the manifest holds this incarnation of the view.
    pub live: bool,
    pub extents: Vec<MergeExtent>,
}

/// A file and its size, from the manifest's digests.
#[derive(Debug)]
pub struct FileEntry {
    pub path: String,
    pub size: u64,
}

/// What a merge is selected from.
#[derive(Debug)]
pub struct MergeSource {
    pub partition: String,
    /// Whether the partition has stepped down.
    pub stepped_down: bool,
    pub views: Vec<ViewExtents>,
    pub files: Vec<FileEntry>,
}

/// One consumed segment.
#[derive(Debug)]
pub struct MergeInput {
    pub seg_id: String,
    pub entity_lo: u64,
    pub entity_hi: u64,
}

/// One merge's plan: the segments it consumes, in listed order.
#[derive(Debug)]
pub struct MergePlan {
    pub partition: String,
    pub view: String,
    pub view_rel: String,
    /// The incarnation the inputs carry and the output takes.
    pub incarnation: u64,
    pub inputs: Vec<MergeInput>,
    /// Where the merged extent begins: the first consumed extent's row base.
    pub row_base: u32,
}

/// A segment's directory.
pub open spec fn segment_dir(partition: Seq<char>, view_rel: Seq<char>, seg_id: Seq<char>) -> Seq<
    char,
> {
    "partitions/"@ + partition + "/"@ + view_rel + "/segments/"@ + seg_id
}

fn dir_of(partition: &str, view_rel: &str, seg_id: &str) -> (dir: String)
    ensures
        dir@ == segment_dir(partition@, view_rel@, seg_id@),
{
    String::from_str("partitions/").concat(partition).concat("/").concat(view_rel).concat(
        "/segments/",
    ).concat(seg_id)
}

/// The bytes of the files under a directory, among the first `n`.
pub open spec fn bytes_under(files: Seq<FileEntry>, dir: Seq<char>, n: int) -> nat
    decreases n,
{
    if n <= 0 {
        0
    } else {
        bytes_under(files, dir, n - 1) + if dir.is_prefix_of(files[n - 1].path@) {
            files[n - 1].size as nat
        } else {
            0
        }
    }
}

/// The bytes of all files.
pub open spec fn bytes_in_all(files: Seq<FileEntry>, n: int) -> nat
    decreases n,
{
    if n <= 0 {
        0
    } else {
        bytes_in_all(files, n - 1) + files[n - 1].size as nat
    }
}

proof fn lemma_bytes_climb(files: Seq<FileEntry>, n: int, more: int)
    requires
        n <= more,
    ensures
        bytes_in_all(files, n) <= bytes_in_all(files, more),
    decreases more - n,
{
    if n < more {
        lemma_bytes_climb(files, n, more - 1);
    }
}

/// One segment's bytes, from the manifest's digests.
pub fn segment_bytes(files: &Vec<FileEntry>, partition: &str, view_rel: &str, seg_id: &str) -> (bytes:
    u64)
    requires
        bytes_in_all(files@, files@.len() as int) <= u64::MAX,
    ensures
        bytes == bytes_under(
            files@,
            segment_dir(partition@, view_rel@, seg_id@) + "/"@,
            files@.len() as int,
        ),
{
    let dir = dir_of(partition, view_rel, seg_id).concat("/");
    let mut bytes: u64 = 0;
    let mut i: usize = 0;
    while i < files.len()
        invariant
            i <= files@.len(),
            bytes_in_all(files@, files@.len() as int) <= u64::MAX,
            bytes == bytes_under(files@, dir@, i as int),
            bytes <= bytes_in_all(files@, i as int),
        decreases files@.len() - i,
    {
        proof {
            lemma_bytes_climb(files@, i + 1, files@.len() as int);
        }
        if starts_with(files[i].path.as_str(), dir.as_str()) {
            bytes = bytes + files[i].size;
        }
        i += 1;
    }
    bytes
}

/// Whether a view is one a merge may be selected in: its incarnation is live, and it holds as many
/// extents as a tier is wide.
pub open spec fn qualifies(source: MergeSource, i: int, tier_width: usize) -> bool {
    &&& !source.stepped_down
    &&& 0 <= i < source.views@.len()
    &&& source.views@[i].live
    &&& source.views@[i].extents@.len() >= tier_width
}

/// Whether a list holds each of a view's extents' bytes, where the view is one a merge may be
/// selected in.
pub open spec fn sized(
    source: MergeSource,
    i: int,
    tier_width: usize,
    out: Option<Vec<u64>>,
) -> bool {
    &&& out is Some <==> qualifies(source, i, tier_width)
    &&& out matches Some(list) ==> {
        let view = source.views@[i];
        &&& list@.len() == view.extents@.len()
        &&& forall|k: int|
            0 <= k < list@.len() ==> (#[trigger] list@[k]) == bytes_under(
                source.files@,
                segment_dir(source.partition@, view.view_rel@, view.extents@[k].seg_id@) + "/"@,
                source.files@.len() as int,
            )
    }
}

/// The sizes a merge is selected by in a view, where the view is one it may be selected in: each
/// extent's bytes.
pub fn sizes(source: &MergeSource, i: usize, tier_width: usize) -> (out: Option<Vec<u64>>)
    requires
        i < source.views@.len(),
        bytes_in_all(source.files@, source.files@.len() as int) <= u64::MAX,
    ensures
        sized(*source, i as int, tier_width, out),
{
    let view = &source.views[i];
    if source.stepped_down || !view.live || view.extents.len() < tier_width {
        return None;
    }
    let mut list: Vec<u64> = Vec::new();
    let mut k: usize = 0;
    while k < view.extents.len()
        invariant
            k <= view.extents@.len(),
            bytes_in_all(source.files@, source.files@.len() as int) <= u64::MAX,
            list@.len() == k,
            forall|j: int|
                0 <= j < k ==> (#[trigger] list@[j]) == bytes_under(
                    source.files@,
                    segment_dir(source.partition@, view.view_rel@, view.extents@[j].seg_id@)
                        + "/"@,
                    source.files@.len() as int,
                ),
        decreases view.extents@.len() - k,
    {
        list.push(
            segment_bytes(
                &source.files,
                source.partition.as_str(),
                view.view_rel.as_str(),
                view.extents[k].seg_id.as_str(),
            ),
        );
        k += 1;
    }
    Some(list)
}

/// Whether an extent is the first of its id.
pub open spec fn extent_at(extents: Seq<MergeExtent>, seg_id: Seq<char>, k: int) -> bool {
    &&& 0 <= k < extents.len()
    &&& extents[k].seg_id@ == seg_id
    &&& forall|j: int| 0 <= j < k ==> (#[trigger] extents[j]).seg_id@ != seg_id
}

/// Whether extents hold a segment.
pub open spec fn has_segment(extents: Seq<MergeExtent>, seg_id: Seq<char>) -> bool {
    exists|k: int| 0 <= k < extents.len() && (#[trigger] extents[k]).seg_id@ == seg_id
}

/// The extents chosen, in listed order.
pub open spec fn chosen_of(extents: Seq<MergeExtent>, chosen: Seq<String>) -> Seq<MergeExtent> {
    extents.filter(|extent: MergeExtent| lists(chosen, extent.seg_id@))
}

/// Whether a plan is the one for a view and the segments chosen in it.
pub open spec fn plan_of(
    source: MergeSource,
    i: int,
    chosen: Seq<String>,
    plan: MergePlan,
) -> bool {
    let view = source.views@[i];
    let taken = chosen_of(view.extents@, chosen);
    &&& plan.partition@ == source.partition@
    &&& plan.view@ == view.view@
    &&& plan.view_rel@ == view.view_rel@
    &&& plan.incarnation == view.incarnation
    &&& plan.inputs@.len() == taken.len()
    &&& forall|k: int|
        0 <= k < taken.len() ==> (#[trigger] plan.inputs@[k]).seg_id@ == taken[k].seg_id@
            && plan.inputs@[k].entity_lo == taken[k].entity_lo && plan.inputs@[k].entity_hi
            == taken[k].entity_hi
    &&& exists|k: int|
        #[trigger] extent_at(view.extents@, chosen[0]@, k) && plan.row_base
            == view.extents@[k].row_base
}

/// Whether a merge is selected in a view.
pub open spec fn selected_in(
    source: MergeSource,
    tier_width: usize,
    chosen: Seq<Option<Vec<String>>>,
    i: int,
) -> bool {
    qualifies(source, i, tier_width) && chosen[i] is Some
}

/// Whether a plan is over the first view a merge is selected in, or there is none where nothing
/// qualifies.
pub open spec fn plans(
    source: MergeSource,
    tier_width: usize,
    chosen: Seq<Option<Vec<String>>>,
    out: Option<MergePlan>,
) -> bool {
    &&& out is None <==> forall|i: int|
        0 <= i < source.views@.len() ==> !#[trigger] selected_in(source, tier_width, chosen, i)
    &&& out matches Some(plan) ==> exists|i: int| #[trigger]
        selected_in(source, tier_width, chosen, i) && plan_of(source, i, chosen[i]->0@, plan)
            && forall|j: int|
            0 <= j < i ==> !#[trigger] selected_in(source, tier_width, chosen, j)
}

/// A merge's plan over the first view one is selected in, or none where nothing qualifies. `chosen`
/// holds, for each view, the segments the policy selects by the extents and their sizes.
pub fn plan_merge(
    source: &MergeSource,
    tier_width: usize,
    chosen: &Vec<Option<Vec<String>>>,
) -> (out: Option<MergePlan>)
    requires
        chosen@.len() == source.views@.len(),
        forall|i: int|
            0 <= i < chosen@.len() && (#[trigger] chosen@[i]) is Some ==> chosen@[i]->0@.len() > 0
                && has_segment(source.views@[i].extents@, chosen@[i]->0@[0]@),
    ensures
        plans(*source, tier_width, chosen@, out),
{
    if source.stepped_down {
        return None;
    }
    let mut i: usize = 0;
    while i < source.views.len()
        invariant
            i <= source.views@.len(),
            !source.stepped_down,
            chosen@.len() == source.views@.len(),
            forall|k: int|
                0 <= k < chosen@.len() && (#[trigger] chosen@[k]) is Some ==> chosen@[k]->0@.len()
                    > 0 && has_segment(source.views@[k].extents@, chosen@[k]->0@[0]@),
            forall|j: int|
                0 <= j < i ==> !#[trigger] selected_in(*source, tier_width, chosen@, j),
        decreases source.views@.len() - i,
    {
        let view = &source.views[i];
        if view.live && view.extents.len() >= tier_width {
            if let Some(ids) = &chosen[i] {
                assert(chosen@[i as int] is Some);
                let plan = plan_for(source, i, ids);
                assert(selected_in(*source, tier_width, chosen@, i as int));
                return Some(plan);
            }
        }
        i += 1;
    }
    None
}

/// The plan for a view and the segments chosen in it.
fn plan_for(source: &MergeSource, i: usize, chosen: &Vec<String>) -> (plan: MergePlan)
    requires
        i < source.views@.len(),
        chosen@.len() > 0,
        has_segment(source.views@[i as int].extents@, chosen@[0]@),
    ensures
        plan_of(*source, i as int, chosen@, plan),
{
    let view = &source.views[i];
    let first: usize = find_extent(&view.extents, chosen[0].as_str());
    let ghost takes = |extent: MergeExtent| lists(chosen@, extent.seg_id@);
    let mut inputs: Vec<MergeInput> = Vec::new();
    let mut k: usize = 0;
    proof {
        lemma_filter_empty(view.extents@, takes);
    }
    while k < view.extents.len()
        invariant
            k <= view.extents@.len(),
            takes == (|extent: MergeExtent| lists(chosen@, extent.seg_id@)),
            inputs@.len() == view.extents@.take(k as int).filter(takes).len(),
            forall|j: int|
                0 <= j < inputs@.len() ==> (#[trigger] inputs@[j]).seg_id@ == view.extents@.take(
                    k as int,
                ).filter(takes)[j].seg_id@ && inputs@[j].entity_lo == view.extents@.take(
                    k as int,
                ).filter(takes)[j].entity_lo && inputs@[j].entity_hi == view.extents@.take(
                    k as int,
                ).filter(takes)[j].entity_hi,
        decreases view.extents@.len() - k,
    {
        proof {
            lemma_filter_step(view.extents@, k as int, takes);
        }
        let extent = &view.extents[k];
        if find(chosen, extent.seg_id.as_str()).is_some() {
            inputs.push(
                MergeInput {
                    seg_id: String::from_str(extent.seg_id.as_str()),
                    entity_lo: extent.entity_lo,
                    entity_hi: extent.entity_hi,
                },
            );
        }
        k += 1;
    }
    assert(view.extents@.take(k as int) =~= view.extents@);
    assert(extent_at(view.extents@, chosen@[0]@, first as int));
    MergePlan {
        partition: String::from_str(source.partition.as_str()),
        view: String::from_str(view.view.as_str()),
        view_rel: String::from_str(view.view_rel.as_str()),
        incarnation: view.incarnation,
        inputs,
        row_base: view.extents[first].row_base,
    }
}

fn find_extent(extents: &Vec<MergeExtent>, seg_id: &str) -> (at: usize)
    requires
        has_segment(extents@, seg_id@),
    ensures
        extent_at(extents@, seg_id@, at as int),
{
    let mut k: usize = 0;
    while k < extents.len() && !same(extents[k].seg_id.as_str(), seg_id)
        invariant
            k <= extents@.len(),
            has_segment(extents@, seg_id@),
            forall|j: int| 0 <= j < k ==> (#[trigger] extents@[j]).seg_id@ != seg_id@,
        decreases extents@.len() - k,
    {
        k += 1;
    }
    proof {
        let j = choose|j: int| 0 <= j < extents@.len() && (#[trigger] extents@[j]).seg_id@ == seg_id@;
        assert(extents@[j].seg_id@ == seg_id@);
    }
    k
}

/// A listed segment.
#[derive(Debug)]
pub struct SegmentDescriptor {
    pub view: String,
    pub incarnation: u64,
    pub seg_id: String,
    pub row_count: u32,
    pub entity_lo: u64,
    pub entity_hi: u64,
}

/// A listed locator.
#[derive(Debug)]
pub struct LocatorExtent {
    pub path: String,
    pub entity_lo: u64,
    pub entity_hi: u64,
}

/// The lists a merge's publication moves. Watermarks are not among them: a merge moves no entity.
#[derive(Debug)]
pub struct SegmentsManifest {
    pub segments: Vec<SegmentDescriptor>,
    pub external_id_runs: Vec<String>,
    pub locator_extents: Vec<LocatorExtent>,
    pub files: Vec<FileEntry>,
}

/// What a completed merge wrote.
#[derive(Debug)]
pub struct MergeOutput {
    pub segment: SegmentDescriptor,
    pub external_id_run: String,
    pub locator_extent: LocatorExtent,
    pub files: Vec<FileEntry>,
}

/// A merge whose files are durable.
#[derive(Debug)]
pub struct CompletedMerge {
    pub plan: MergePlan,
    pub output: MergeOutput,
}

/// The names a segment's directory holds that the layout fixes elsewhere.
#[derive(Debug)]
pub struct SegmentNames {
    /// The cut index's file.
    pub cut_index: String,
    /// The directory of the presence bitmaps.
    pub presence_dir: String,
}

/// The external-id run of a segment.
pub fn run_path(partition: &str, view_rel: &str, seg_id: &str) -> (path: String)
    ensures
        path@ == segment_dir(partition@, view_rel@, seg_id@) + "/external-ids.arrow"@,
{
    dir_of(partition, view_rel, seg_id).concat("/external-ids.arrow")
}

/// The external-id locator of a segment.
pub fn locator_path(partition: &str, view_rel: &str, seg_id: &str) -> (path: String)
    ensures
        path@ == segment_dir(partition@, view_rel@, seg_id@) + "/ext-locator.u32"@,
{
    dir_of(partition, view_rel, seg_id).concat("/ext-locator.u32")
}

/// Whether keys stand in a list from `start` on, in order.
pub open spec fn stands_at(haystack: Seq<Seq<char>>, needle: Seq<Seq<char>>, start: int) -> bool {
    0 <= start && start + needle.len() <= haystack.len() && haystack.subrange(
        start,
        start + needle.len(),
    ) == needle
}

/// The texts of a list.
pub open spec fn keys_of(list: Seq<String>) -> Seq<Seq<char>> {
    list.map_values(|text: String| text@)
}

/// Where keys first stand in a list as a contiguous run, in order.
pub fn contiguous(haystack: &Vec<String>, needle: &Vec<String>) -> (start: Option<usize>)
    ensures
        start matches Some(at) ==> needle@.len() > 0 && stands_at(
            keys_of(haystack@),
            keys_of(needle@),
            at as int,
        ) && forall|k: int|
            0 <= k < at ==> !#[trigger] stands_at(keys_of(haystack@), keys_of(needle@), k),
        start is None ==> needle@.len() == 0 || forall|k: int|
            !#[trigger] stands_at(keys_of(haystack@), keys_of(needle@), k),
{
    let count: usize = haystack.len();
    let wanted: usize = needle.len();
    if wanted == 0 || count < wanted {
        return None;
    }
    let ghost hay = keys_of(haystack@);
    let ghost keys = keys_of(needle@);
    let mut at: usize = 0;
    while at < count - wanted + 1
        invariant
            count == haystack@.len(),
            0 < wanted == needle@.len() <= count,
            hay == keys_of(haystack@),
            keys == keys_of(needle@),
            at <= count - wanted + 1,
            forall|k: int| 0 <= k < at ==> !#[trigger] stands_at(hay, keys, k),
        decreases count - wanted + 1 - at,
    {
        let mut i: usize = 0;
        while i < wanted && same(haystack[at + i].as_str(), needle[i].as_str())
            invariant
                count == haystack@.len(),
                0 < wanted == needle@.len() <= count,
                at <= count - wanted,
                i <= wanted,
                hay == keys_of(haystack@),
                keys == keys_of(needle@),
                forall|k: int| 0 <= k < i ==> hay[at + k] == #[trigger] keys[k],
            decreases wanted - i,
        {
            assert(hay[at + i] == keys[i as int]);
            i += 1;
        }
        if i == wanted {
            assert(hay.subrange(at as int, at + keys.len()) =~= keys);
            assert(stands_at(hay, keys, at as int));
            return Some(at);
        }
        assert(!stands_at(hay, keys, at as int)) by {
            if stands_at(hay, keys, at as int) {
                assert(hay.subrange(at as int, at + keys.len())[i as int] == keys[i as int]);
            }
        }
        at += 1;
    }
    None
}

/// Replace a run of a list by one item.
fn splice<T>(list: &mut Vec<T>, start: usize, count: usize, item: T)
    requires
        start + count <= old(list)@.len(),
    ensures
        final(list)@ == old(list)@.take(start as int).push(item) + old(list)@.skip(start + count),
{
    let ghost whole = list@;
    let mut gone: usize = 0;
    assert(list@ =~= whole.take(start as int) + whole.skip(start as int));
    while gone < count
        invariant
            gone <= count,
            start + count <= whole.len(),
            list@ == whole.take(start as int) + whole.skip(start + gone),
        decreases count - gone,
    {
        let _ = list.remove(start);
        gone += 1;
        assert(list@ =~= whole.take(start as int) + whole.skip(start + gone));
    }
    list.insert(start, item);
    assert(list@ =~= whole.take(start as int).push(item) + whole.skip(start + count));
}

impl MergePlan {
    /// Whether the plan consumes a segment.
    pub open spec fn consumes(&self, seg_id: Seq<char>) -> bool {
        exists|k: int| 0 <= k < self.inputs@.len() && (#[trigger] self.inputs@[k]).seg_id@ == seg_id
    }

    fn is_consumed(&self, seg_id: &str) -> (yes: bool)
        ensures
            yes == self.consumes(seg_id@),
    {
        let mut k: usize = 0;
        while k < self.inputs.len()
            invariant
                k <= self.inputs@.len(),
                forall|j: int| 0 <= j < k ==> (#[trigger] self.inputs@[j]).seg_id@ != seg_id@,
            decreases self.inputs@.len() - k,
        {
            if same(self.inputs[k].seg_id.as_str(), seg_id) {
                assert(self.inputs@[k as int].seg_id@ == seg_id@);
                return true;
            }
            k += 1;
        }
        false
    }

    /// The directory of a consumed segment.
    pub open spec fn dir(&self, k: int) -> Seq<char> {
        segment_dir(self.partition@, self.view_rel@, self.inputs@[k].seg_id@)
    }

    /// The consumed segments' external-id runs.
    pub open spec fn runs(&self) -> Seq<Seq<char>> {
        Seq::new(self.inputs@.len(), |k: int| self.dir(k) + "/external-ids.arrow"@)
    }

    /// The consumed segments' locators.
    pub open spec fn locators(&self) -> Seq<Seq<char>> {
        Seq::new(self.inputs@.len(), |k: int| self.dir(k) + "/ext-locator.u32"@)
    }

    /// Whether a segment's row-space files hold a path.
    pub open spec fn drops_in(&self, k: int, names: SegmentNames, path: Seq<char>) -> bool {
        ||| path == self.dir(k) + "/morton.u32"@
        ||| path == self.dir(k) + "/"@ + names.cut_index@
        ||| path == self.dir(k) + "/columns.arrow"@
        ||| path == self.dir(k) + "/external-ids.arrow"@
        ||| path == self.dir(k) + "/ext-locator.u32"@
        ||| (self.dir(k) + "/"@ + names.presence_dir@ + "/"@).is_prefix_of(path)
    }

    /// Whether the merged segment replaces a file: a row-space file of a consumed segment, or a
    /// presence bitmap of one.
    pub open spec fn drops(&self, names: SegmentNames, path: Seq<char>) -> bool {
        exists|k: int| 0 <= k < self.inputs@.len() && #[trigger] self.drops_in(k, names, path)
    }

    fn is_dropped(&self, names: &SegmentNames, path: &str) -> (yes: bool)
        ensures
            yes == self.drops(*names, path@),
    {
        let mut k: usize = 0;
        while k < self.inputs.len()
            invariant
                k <= self.inputs@.len(),
                forall|j: int| 0 <= j < k ==> !#[trigger] self.drops_in(j, *names, path@),
            decreases self.inputs@.len() - k,
        {
            let dir = dir_of(
                self.partition.as_str(),
                self.view_rel.as_str(),
                self.inputs[k].seg_id.as_str(),
            );
            let morton = dir.clone().concat("/morton.u32");
            let cut_index = dir.clone().concat("/").concat(names.cut_index.as_str());
            let columns = dir.clone().concat("/columns.arrow");
            let runs = dir.clone().concat("/external-ids.arrow");
            let locator = dir.clone().concat("/ext-locator.u32");
            let presence = dir.concat("/").concat(names.presence_dir.as_str()).concat("/");
            if same(path, morton.as_str()) || same(path, cut_index.as_str()) || same(
                path,
                columns.as_str(),
            ) || same(path, runs.as_str()) || same(path, locator.as_str()) || starts_with(
                path,
                presence.as_str(),
            ) {
                assert(self.drops_in(k as int, *names, path@));
                return true;
            }
            k += 1;
        }
        false
    }

    /// The paths of a file of each consumed segment.
    fn paths(&self, locators: bool) -> (paths: Vec<String>)
        ensures
            keys_of(paths@) == if locators {
                self.locators()
            } else {
                self.runs()
            },
    {
        let mut paths: Vec<String> = Vec::new();
        let mut k: usize = 0;
        while k < self.inputs.len()
            invariant
                k <= self.inputs@.len(),
                paths@.len() == k,
                forall|j: int|
                    0 <= j < k ==> (#[trigger] paths@[j])@ == if locators {
                        self.locators()[j]
                    } else {
                        self.runs()[j]
                    },
            decreases self.inputs@.len() - k,
        {
            let seg_id = self.inputs[k].seg_id.as_str();
            paths.push(
                if locators {
                    locator_path(self.partition.as_str(), self.view_rel.as_str(), seg_id)
                } else {
                    run_path(self.partition.as_str(), self.view_rel.as_str(), seg_id)
                },
            );
            k += 1;
        }
        assert(keys_of(paths@) =~= if locators {
            self.locators()
        } else {
            self.runs()
        });
        paths
    }
}

/// Whether a listed segment is the first of a view and an id.
pub open spec fn segment_at(
    segments: Seq<SegmentDescriptor>,
    view: Seq<char>,
    seg_id: Seq<char>,
    k: int,
) -> bool {
    &&& 0 <= k < segments.len()
    &&& segments[k].seg_id@ == seg_id && segments[k].view@ == view
    &&& forall|j: int|
        0 <= j < k ==> !((#[trigger] segments[j]).seg_id@ == seg_id && segments[j].view@ == view)
}

/// Whether a segment of a view is listed.
pub open spec fn is_listed(
    segments: Seq<SegmentDescriptor>,
    view: Seq<char>,
    seg_id: Seq<char>,
) -> bool {
    exists|k: int|
        0 <= k < segments.len() && (#[trigger] segments[k]).seg_id@ == seg_id && segments[k].view@
            == view
}

fn find_segment(segments: &Vec<SegmentDescriptor>, view: &str, seg_id: &str) -> (at: Option<usize>)
    ensures
        at is Some <==> is_listed(segments@, view@, seg_id@),
        at matches Some(k) ==> segment_at(segments@, view@, seg_id@, k as int),
{
    let mut k: usize = 0;
    while k < segments.len()
        invariant
            k <= segments@.len(),
            forall|j: int|
                0 <= j < k ==> !((#[trigger] segments@[j]).seg_id@ == seg_id@ && segments@[j].view@
                    == view@),
        decreases segments@.len() - k,
    {
        if same(segments[k].seg_id.as_str(), seg_id) && same(segments[k].view.as_str(), view) {
            assert(segments@[k as int].seg_id@ == seg_id@ && segments@[k as int].view@ == view@);
            return Some(k);
        }
        k += 1;
    }
    None
}

/// The listed segments a plan does not consume.
pub open spec fn kept_segments(segments: Seq<SegmentDescriptor>, plan: MergePlan) -> Seq<
    SegmentDescriptor,
> {
    segments.filter(
        |s: SegmentDescriptor| !(s.view@ == plan.view@ && plan.consumes(s.seg_id@)),
    )
}

/// Where keys first stand in a list.
pub open spec fn first_stands(haystack: Seq<Seq<char>>, needle: Seq<Seq<char>>, at: int) -> bool {
    stands_at(haystack, needle, at) && forall|k: int|
        0 <= k < at ==> !#[trigger] stands_at(haystack, needle, k)
}

/// The paths of the listed locators.
pub open spec fn locator_keys(locators: Seq<LocatorExtent>) -> Seq<Seq<char>> {
    locators.map_values(|locator: LocatorExtent| locator.path@)
}

/// Whether a plan still rebases onto a manifest: every segment it consumes is listed, and their
/// runs and locators stand contiguous and in order.
pub open spec fn rebases(manifest: SegmentsManifest, plan: MergePlan) -> bool {
    &&& forall|k: int|
        0 <= k < plan.inputs@.len() ==> is_listed(
            manifest.segments@,
            plan.view@,
            (#[trigger] plan.inputs@[k]).seg_id@,
        )
    &&& exists|at: int| #[trigger]
        stands_at(keys_of(manifest.external_id_runs@), plan.runs(), at)
    &&& exists|at: int| #[trigger]
        stands_at(locator_keys(manifest.locator_extents@), plan.locators(), at)
}

/// Whether files hold a path.
pub open spec fn has_path(files: Seq<FileEntry>, path: Seq<char>) -> bool {
    exists|k: int| 0 <= k < files.len() && (#[trigger] files[k]).path@ == path
}

fn holds_path(files: &Vec<FileEntry>, path: &str) -> (yes: bool)
    ensures
        yes == has_path(files@, path@),
{
    let mut k: usize = 0;
    while k < files.len()
        invariant
            k <= files@.len(),
            forall|j: int| 0 <= j < k ==> (#[trigger] files@[j]).path@ != path@,
        decreases files@.len() - k,
    {
        if same(files[k].path.as_str(), path) {
            assert(files@[k as int].path@ == path@);
            return true;
        }
        k += 1;
    }
    false
}

/// The listed files that neither the plan drops nor the output writes again.
pub open spec fn kept_files(
    files: Seq<FileEntry>,
    plan: MergePlan,
    names: SegmentNames,
    written: Seq<FileEntry>,
) -> Seq<FileEntry> {
    files.filter(|f: FileEntry| !(plan.drops(names, f.path@) || has_path(written, f.path@)))
}

/// The paths of the listed locators, as texts.
fn locator_paths(locators: &Vec<LocatorExtent>) -> (paths: Vec<String>)
    ensures
        keys_of(paths@) == locator_keys(locators@),
{
    let mut paths: Vec<String> = Vec::new();
    let mut k: usize = 0;
    while k < locators.len()
        invariant
            k <= locators@.len(),
            paths@.len() == k,
            forall|j: int| 0 <= j < k ==> (#[trigger] paths@[j])@ == locators@[j].path@,
        decreases locators@.len() - k,
    {
        paths.push(String::from_str(locators[k].path.as_str()));
        k += 1;
    }
    assert(keys_of(paths@) =~= locator_keys(locators@));
    paths
}

/// Take the consumed segments off a list.
fn drop_segments(segments: &mut Vec<SegmentDescriptor>, plan: &MergePlan)
    ensures
        final(segments)@ == kept_segments(old(segments)@, *plan),
{
    let ghost whole = segments@;
    let ghost keeps = |s: SegmentDescriptor| !(s.view@ == plan.view@ && plan.consumes(s.seg_id@));
    let ghost mut seen: int = 0;
    let mut i: usize = 0;
    proof {
        lemma_filter_empty(whole, keeps);
        assert(segments@ =~= whole.take(0).filter(keeps) + whole.skip(0));
    }
    while i < segments.len()
        invariant
            keeps == (|s: SegmentDescriptor|
                !(s.view@ == plan.view@ && plan.consumes(s.seg_id@))),
            0 <= seen <= whole.len(),
            i == whole.take(seen).filter(keeps).len(),
            segments@ == whole.take(seen).filter(keeps) + whole.skip(seen),
        decreases segments@.len() - i,
    {
        proof {
            lemma_filter_step(whole, seen, keeps);
            assert(segments@[i as int] == whole.skip(seen)[0]);
        }
        if same(segments[i].view.as_str(), plan.view.as_str()) && plan.is_consumed(
            segments[i].seg_id.as_str(),
        ) {
            let _ = segments.remove(i);
        } else {
            i += 1;
        }
        proof {
            seen = seen + 1;
            assert(segments@ =~= whole.take(seen).filter(keeps) + whole.skip(seen));
        }
    }
    proof {
        assert(whole.skip(seen).len() == 0);
        assert(whole.take(seen) =~= whole);
        assert(segments@ =~= kept_segments(whole, *plan));
    }
}

/// Take the replaced files off a list.
fn drop_files(
    files: &mut Vec<FileEntry>,
    plan: &MergePlan,
    names: &SegmentNames,
    written: &Vec<FileEntry>,
)
    ensures
        final(files)@ == kept_files(old(files)@, *plan, *names, written@),
{
    let ghost whole = files@;
    let ghost keeps = |f: FileEntry|
        !(plan.drops(*names, f.path@) || has_path(written@, f.path@));
    let ghost mut seen: int = 0;
    let mut i: usize = 0;
    proof {
        lemma_filter_empty(whole, keeps);
        assert(files@ =~= whole.take(0).filter(keeps) + whole.skip(0));
    }
    while i < files.len()
        invariant
            keeps == (|f: FileEntry|
                !(plan.drops(*names, f.path@) || has_path(written@, f.path@))),
            0 <= seen <= whole.len(),
            i == whole.take(seen).filter(keeps).len(),
            files@ == whole.take(seen).filter(keeps) + whole.skip(seen),
        decreases files@.len() - i,
    {
        proof {
            lemma_filter_step(whole, seen, keeps);
            assert(files@[i as int] == whole.skip(seen)[0]);
        }
        if plan.is_dropped(names, files[i].path.as_str()) || holds_path(
            written,
            files[i].path.as_str(),
        ) {
            let _ = files.remove(i);
        } else {
            i += 1;
        }
        proof {
            seen = seen + 1;
            assert(files@ =~= whole.take(seen).filter(keeps) + whole.skip(seen));
        }
    }
    proof {
        assert(whole.skip(seen).len() == 0);
        assert(whole.take(seen) =~= whole);
        assert(files@ =~= kept_files(whole, *plan, *names, written@));
    }
}

/// What applying a completed merge makes of a manifest, which it leaves where it did not rebase.
pub open spec fn rebased_to(
    before: SegmentsManifest,
    completed: CompletedMerge,
    names: SegmentNames,
    rebased: bool,
    after: SegmentsManifest,
) -> bool {
    let plan = completed.plan;
    let output = completed.output;
    &&& !rebased ==> after == before
    &&& rebased ==> {
        &&& exists|k: int|
            #[trigger] segment_at(before.segments@, plan.view@, plan.inputs@[0].seg_id@, k)
                && after.segments@ == kept_segments(before.segments@, plan).insert(k, output.segment)
        &&& exists|at: int|
            #[trigger] first_stands(keys_of(before.external_id_runs@), plan.runs(), at)
                && after.external_id_runs@ == before.external_id_runs@.take(at).push(
                output.external_id_run,
            ) + before.external_id_runs@.skip(at + plan.inputs@.len())
        &&& exists|at: int|
            #[trigger] first_stands(locator_keys(before.locator_extents@), plan.locators(), at)
                && after.locator_extents@ == before.locator_extents@.take(at).push(
                output.locator_extent,
            ) + before.locator_extents@.skip(at + plan.inputs@.len())
        &&& after.files@ == kept_files(before.files@, plan, names, output.files@) + output.files@
    }
}

/// Apply a completed merge to a manifest in place, or leave it where the merge no longer rebases.
///
/// The consumed descriptors go and the merged one takes the first's position. Their runs and
/// locators go and the merged ones take the first's position, because resolution reads these lists
/// newest-first by position. The files the merged segment replaces go, and its own are listed.
pub fn rebase_into(
    manifest: &mut SegmentsManifest,
    completed: CompletedMerge,
    names: &SegmentNames,
) -> (rebased: bool)
    requires
        completed.plan.inputs@.len() > 0,
        rebases(*old(manifest), completed.plan) ==> forall|k: int|
            segment_at(
                old(manifest).segments@,
                completed.plan.view@,
                completed.plan.inputs@[0].seg_id@,
                k,
            ) ==> k <= kept_segments(old(manifest).segments@, completed.plan).len(),
    ensures
        rebased == rebases(*old(manifest), completed.plan),
        rebased_to(*old(manifest), completed, *names, rebased, *final(manifest)),
{
    let plan = completed.plan;
    let output = completed.output;
    let first: usize = match find_segment(
        &manifest.segments,
        plan.view.as_str(),
        plan.inputs[0].seg_id.as_str(),
    ) {
        Some(at) => at,
        None => {
            assert(!is_listed(manifest.segments@, plan.view@, plan.inputs@[0].seg_id@));
            return false;
        },
    };
    let mut k: usize = 0;
    while k < plan.inputs.len()
        invariant
            k <= plan.inputs@.len(),
            *manifest == *old(manifest),
            plan == completed.plan,
            forall|j: int|
                0 <= j < k ==> is_listed(
                    manifest.segments@,
                    plan.view@,
                    (#[trigger] plan.inputs@[j]).seg_id@,
                ),
        decreases plan.inputs@.len() - k,
    {
        let at = find_segment(
            &manifest.segments,
            plan.view.as_str(),
            plan.inputs[k].seg_id.as_str(),
        );
        if at.is_none() {
            assert(!is_listed(manifest.segments@, plan.view@, plan.inputs@[k as int].seg_id@));
            return false;
        }
        k += 1;
    }
    let run_paths = plan.paths(false);
    let runs: usize = match contiguous(&manifest.external_id_runs, &run_paths) {
        Some(at) => at,
        None => {
            assert(keys_of(run_paths@).len() == plan.inputs@.len());
            return false;
        },
    };
    let wanted = plan.paths(true);
    let held = locator_paths(&manifest.locator_extents);
    let locators: usize = match contiguous(&held, &wanted) {
        Some(at) => at,
        None => {
            assert(keys_of(wanted@).len() == plan.inputs@.len());
            return false;
        },
    };
    let count: usize = plan.inputs.len();
    proof {
        assert(first_stands(keys_of(manifest.external_id_runs@), plan.runs(), runs as int));
        assert(first_stands(
            locator_keys(manifest.locator_extents@),
            plan.locators(),
            locators as int,
        ));
        assert(keys_of(manifest.external_id_runs@).len() == manifest.external_id_runs@.len());
        assert(locator_keys(manifest.locator_extents@).len() == manifest.locator_extents@.len());
        assert(segment_at(
            manifest.segments@,
            plan.view@,
            plan.inputs@[0].seg_id@,
            first as int,
        ));
        assert(rebases(*manifest, plan));
    }
    drop_segments(&mut manifest.segments, &plan);
    manifest.segments.insert(first, output.segment);
    splice(&mut manifest.external_id_runs, runs, count, output.external_id_run);
    splice(&mut manifest.locator_extents, locators, count, output.locator_extent);
    drop_files(&mut manifest.files, &plan, names, &output.files);
    let mut written = output.files;
    manifest.files.append(&mut written);
    true
}

/// Where every segment a merge consumes is listed from the first's place on, the merged segment
/// takes that place: what was listed before it stays before it.
pub proof fn law_the_merged_segment_takes_the_firsts_place(
    segments: Seq<SegmentDescriptor>,
    plan: MergePlan,
    first: int,
)
    requires
        0 <= first <= segments.len(),
        forall|k: int|
            0 <= k < first ==> !((#[trigger] segments[k]).view@ == plan.view@ && plan.consumes(
                segments[k].seg_id@,
            )),
    ensures
        first <= kept_segments(segments, plan).len(),
        kept_segments(segments, plan).take(first) == segments.take(first),
{
    let keeps = |s: SegmentDescriptor| !(s.view@ == plan.view@ && plan.consumes(s.seg_id@));
    lemma_kept_prefix(segments, keeps, first);
    assert(segments.take(segments.len() as int) =~= segments);
    lemma_filter_prefix(segments, keeps, first, segments.len() as int);
}

/// What a filter keeps of a prefix is the prefix, where it keeps all of it.
proof fn lemma_kept_prefix<T>(s: Seq<T>, p: spec_fn(T) -> bool, n: int)
    requires
        0 <= n <= s.len(),
        forall|k: int| 0 <= k < n ==> p(#[trigger] s[k]),
    ensures
        s.take(n).filter(p) == s.take(n),
    decreases n,
{
    if n == 0 {
        lemma_filter_empty(s, p);
        assert(s.take(0) =~= Seq::<T>::empty());
    } else {
        lemma_kept_prefix(s, p, n - 1);
        lemma_filter_step(s, n - 1, p);
        assert(s.take(n) =~= s.take(n - 1).push(s[n - 1]));
    }
}

/// What a filter keeps of a prefix begins what it keeps of a longer one.
proof fn lemma_filter_prefix<T>(s: Seq<T>, p: spec_fn(T) -> bool, n: int, more: int)
    requires
        0 <= n <= more <= s.len(),
    ensures
        s.take(n).filter(p).len() <= s.take(more).filter(p).len(),
        s.take(more).filter(p).take(s.take(n).filter(p).len() as int) == s.take(n).filter(p),
    decreases more - n,
{
    let part = s.take(n).filter(p);
    if n < more {
        lemma_filter_prefix(s, p, n, more - 1);
        lemma_filter_step(s, more - 1, p);
        let before = s.take(more - 1).filter(p);
        let after = s.take(more).filter(p);
        assert(after.take(part.len() as int) =~= before.take(part.len() as int));
    } else {
        assert(part.take(part.len() as int) =~= part);
    }
}

/// A merge is planned exactly where the partition has not stepped down and some live view, wide
/// enough for a tier, has segments chosen in it.
pub proof fn law_a_merge_is_planned_where_one_is_chosen(
    source: MergeSource,
    tier_width: usize,
    chosen: Seq<Option<Vec<String>>>,
    out: Option<MergePlan>,
)
    requires
        plans(source, tier_width, chosen, out),
    ensures
        out is Some <==> exists|i: int|
            0 <= i < source.views@.len() && !source.stepped_down && (
            #[trigger] source.views@[i]).live && source.views@[i].extents@.len() >= tier_width
                && chosen[i] is Some,
{
    if exists|i: int|
        0 <= i < source.views@.len() && !source.stepped_down && (#[trigger] source.views@[i]).live
            && source.views@[i].extents@.len() >= tier_width && chosen[i] is Some {
        let i = choose|i: int|
            0 <= i < source.views@.len() && !source.stepped_down && (
            #[trigger] source.views@[i]).live && source.views@[i].extents@.len() >= tier_width
                && chosen[i] is Some;
        assert(selected_in(source, tier_width, chosen, i));
    }
    if out is Some {
        let i = choose|i: int| #[trigger]
            selected_in(source, tier_width, chosen, i) && plan_of(
                source,
                i,
                chosen[i]->0@,
                out->0,
            ) && forall|j: int|
                0 <= j < i ==> !#[trigger] selected_in(source, tier_width, chosen, j);
        assert(source.views@[i].live);
    }
}

/// A merge's plan is of the view its inputs are extents of. There is one view whose name, path and
/// incarnation the plan carries: it is live and wide enough for a tier, no view before it has
/// segments chosen in it, and the inputs are its chosen extents, every one of them, in listed order.
/// The merged rows begin where those of the first chosen extent do.
pub proof fn law_a_plan_is_of_the_view_its_inputs_are_of(
    source: MergeSource,
    tier_width: usize,
    chosen: Seq<Option<Vec<String>>>,
    plan: MergePlan,
) -> (found: (int, Seq<int>, int))
    requires
        plans(source, tier_width, chosen, Some(plan)),
    ensures
        ({
            let (i, at, first) = found;
            let view = source.views@[i];
            &&& 0 <= i < source.views@.len()
            &&& view.live && view.extents@.len() >= tier_width && chosen[i] is Some
            &&& forall|j: int|
                0 <= j < i ==> !((#[trigger] source.views@[j]).live
                    && source.views@[j].extents@.len() >= tier_width && chosen[j] is Some)
            &&& plan.partition@ == source.partition@
            &&& plan.view@ == view.view@
            &&& plan.view_rel@ == view.view_rel@
            &&& plan.incarnation == view.incarnation
            &&& at.len() == plan.inputs@.len()
            &&& forall|k: int, l: int| 0 <= k < l < at.len() ==> at[k] < at[l]
            &&& forall|k: int|
                0 <= k < at.len() ==> 0 <= #[trigger] at[k] < view.extents@.len()
                    && plan.inputs@[k].seg_id@ == view.extents@[at[k]].seg_id@
                    && plan.inputs@[k].entity_lo == view.extents@[at[k]].entity_lo
                    && plan.inputs@[k].entity_hi == view.extents@[at[k]].entity_hi
            &&& forall|e: int|
                0 <= e < view.extents@.len() ==> (at.contains(e) <==> exists|c: int|
                    0 <= c < chosen[i]->0@.len() && (#[trigger] chosen[i]->0@[c])@ == (
                    #[trigger] view.extents@[e]).seg_id@)
            &&& 0 <= first < view.extents@.len()
            &&& view.extents@[first].seg_id@ == chosen[i]->0@[0]@
            &&& forall|e: int|
                0 <= e < first ==> (#[trigger] view.extents@[e]).seg_id@ != chosen[i]->0@[0]@
            &&& plan.row_base == view.extents@[first].row_base
        }),
{
    let i = choose|i: int| #[trigger]
        selected_in(source, tier_width, chosen, i) && plan_of(source, i, chosen[i]->0@, plan)
            && forall|j: int|
            0 <= j < i ==> !#[trigger] selected_in(source, tier_width, chosen, j);
    let view = source.views@[i];
    let ids = chosen[i]->0@;
    let first = choose|k: int|
        #[trigger] extent_at(view.extents@, ids[0]@, k) && plan.row_base
            == view.extents@[k].row_base;
    let takes = |extent: MergeExtent| lists(ids, extent.seg_id@);
    let at = lemma_filter_positions(view.extents@, takes);
    assert forall|j: int| 0 <= j < i implies !((#[trigger] source.views@[j]).live
        && source.views@[j].extents@.len() >= tier_width && chosen[j] is Some) by {
        assert(!selected_in(source, tier_width, chosen, j));
    }
    assert forall|e: int| 0 <= e < view.extents@.len() implies (at.contains(e) <==> exists|c: int|
        0 <= c < ids.len() && (#[trigger] ids[c])@ == (#[trigger] view.extents@[e]).seg_id@) by {
        assert(lists(ids, view.extents@[e].seg_id@) == exists|c: int|
            0 <= c < ids.len() && (#[trigger] ids[c])@ == view.extents@[e].seg_id@);
        assert(takes(view.extents@[e]) == lists(ids, view.extents@[e].seg_id@));
        if at.contains(e) {
            let k = choose|k: int| 0 <= k < at.len() && at[k] == e;
            assert(takes(view.extents@[at[k]]));
        }
    }
    (i, at, first)
}

/// A file's bytes are counted to the segment whose directory it is under, and to no other.
pub proof fn law_a_file_counts_for_the_segment_it_is_under(
    files: Seq<FileEntry>,
    file: FileEntry,
    partition: Seq<char>,
    view_rel: Seq<char>,
    seg_id: Seq<char>,
)
    ensures
        ({
            let dir = segment_dir(partition, view_rel, seg_id) + "/"@;
            let path = "partitions/"@ + partition + "/"@ + view_rel + "/segments/"@ + seg_id + "/"@;
            &&& bytes_under(Seq::empty(), dir, 0) == 0
            &&& bytes_under(files.push(file), dir, (files.len() + 1) as int) == bytes_under(
                files,
                dir,
                files.len() as int,
            ) + if path.len() <= file.path@.len() && file.path@.take(path.len() as int) == path {
                file.size as nat
            } else {
                0
            }
        }),
{
    let dir = segment_dir(partition, view_rel, seg_id) + "/"@;
    let more = files.push(file);
    lemma_bytes_read(files, more, dir, files.len() as int);
    assert(more[files.len() as int] == file);
    assert(dir.is_prefix_of(file.path@) <==> dir.len() <= file.path@.len() && file.path@.take(
        dir.len() as int,
    ) == dir) by {
        if dir.is_prefix_of(file.path@) {
            assert(file.path@.take(dir.len() as int) =~= dir);
        }
    }
}

proof fn lemma_bytes_read(a: Seq<FileEntry>, b: Seq<FileEntry>, dir: Seq<char>, n: int)
    requires
        n <= a.len(),
        n <= b.len(),
        forall|k: int| 0 <= k < n ==> a[k] == b[k],
    ensures
        bytes_under(a, dir, n) == bytes_under(b, dir, n),
    decreases n,
{
    if n > 0 {
        lemma_bytes_read(a, b, dir, n - 1);
    }
}

/// A merge is applied only where the manifest still lists every segment it consumes in the plan's
/// view, and their runs and locators still stand one after another, in order.
pub proof fn law_an_applied_merge_found_what_it_consumed(
    before: SegmentsManifest,
    completed: CompletedMerge,
    names: SegmentNames,
    rebased: bool,
    after: SegmentsManifest,
) -> (at: (int, int))
    requires
        rebased == rebases(before, completed.plan),
        rebased_to(before, completed, names, rebased, after),
        rebased,
    ensures
        ({
            let plan = completed.plan;
            let (runs, locators) = at;
            &&& forall|k: int|
                0 <= k < plan.inputs@.len() ==> exists|s: int|
                    0 <= s < before.segments@.len() && (#[trigger] before.segments@[s]).seg_id@ == (
                    #[trigger] plan.inputs@[k]).seg_id@ && before.segments@[s].view@ == plan.view@
            &&& 0 <= runs <= before.external_id_runs@.len() - plan.inputs@.len()
            &&& forall|k: int|
                0 <= k < plan.inputs@.len() ==> #[trigger] before.external_id_runs@[runs + k]@
                    == "partitions/"@ + plan.partition@ + "/"@ + plan.view_rel@ + "/segments/"@
                    + plan.inputs@[k].seg_id@ + "/external-ids.arrow"@
            &&& 0 <= locators <= before.locator_extents@.len() - plan.inputs@.len()
            &&& forall|k: int|
                0 <= k < plan.inputs@.len() ==> #[trigger] before.locator_extents@[locators
                    + k].path@ == "partitions/"@ + plan.partition@ + "/"@ + plan.view_rel@
                    + "/segments/"@ + plan.inputs@[k].seg_id@ + "/ext-locator.u32"@
        }),
{
    let plan = completed.plan;
    let held = keys_of(before.external_id_runs@);
    let paths = locator_keys(before.locator_extents@);
    let runs = choose|at: int| #[trigger] stands_at(held, plan.runs(), at);
    let locators = choose|at: int| #[trigger] stands_at(paths, plan.locators(), at);
    assert forall|k: int| 0 <= k < plan.inputs@.len() implies exists|s: int|
        0 <= s < before.segments@.len() && (#[trigger] before.segments@[s]).seg_id@ == (
        #[trigger] plan.inputs@[k]).seg_id@ && before.segments@[s].view@ == plan.view@ by {
        assert(is_listed(before.segments@, plan.view@, plan.inputs@[k].seg_id@));
    }
    assert forall|k: int| 0 <= k < plan.inputs@.len() implies #[trigger] before.external_id_runs@[runs
        + k]@ == "partitions/"@ + plan.partition@ + "/"@ + plan.view_rel@ + "/segments/"@
        + plan.inputs@[k].seg_id@ + "/external-ids.arrow"@ by {
        assert(held.subrange(runs, runs + plan.runs().len())[k] == plan.runs()[k]);
        assert(held[runs + k] == before.external_id_runs@[runs + k]@);
    }
    assert forall|k: int| 0 <= k < plan.inputs@.len() implies #[trigger] before.locator_extents@[locators
        + k].path@ == "partitions/"@ + plan.partition@ + "/"@ + plan.view_rel@ + "/segments/"@
        + plan.inputs@[k].seg_id@ + "/ext-locator.u32"@ by {
        assert(paths.subrange(locators, locators + plan.locators().len())[k] == plan.locators()[k]);
        assert(paths[locators + k] == before.locator_extents@[locators + k].path@);
    }
    (runs, locators)
}

/// A merge whose segments are all listed in its view, and whose runs and locators stand one after
/// another, in order, is applied.
pub proof fn law_a_merge_that_finds_what_it_consumed_is_applied(
    before: SegmentsManifest,
    completed: CompletedMerge,
    rebased: bool,
    runs: int,
    locators: int,
)
    requires
        rebased == rebases(before, completed.plan),
        ({
            let plan = completed.plan;
            &&& forall|k: int|
                0 <= k < plan.inputs@.len() ==> exists|s: int|
                    0 <= s < before.segments@.len() && (#[trigger] before.segments@[s]).seg_id@ == (
                    #[trigger] plan.inputs@[k]).seg_id@ && before.segments@[s].view@ == plan.view@
            &&& 0 <= runs <= before.external_id_runs@.len() - plan.inputs@.len()
            &&& forall|k: int|
                0 <= k < plan.inputs@.len() ==> #[trigger] before.external_id_runs@[runs + k]@
                    == "partitions/"@ + plan.partition@ + "/"@ + plan.view_rel@ + "/segments/"@
                    + plan.inputs@[k].seg_id@ + "/external-ids.arrow"@
            &&& 0 <= locators <= before.locator_extents@.len() - plan.inputs@.len()
            &&& forall|k: int|
                0 <= k < plan.inputs@.len() ==> #[trigger] before.locator_extents@[locators
                    + k].path@ == "partitions/"@ + plan.partition@ + "/"@ + plan.view_rel@
                    + "/segments/"@ + plan.inputs@[k].seg_id@ + "/ext-locator.u32"@
        }),
    ensures
        rebased,
{
    let plan = completed.plan;
    let held = keys_of(before.external_id_runs@);
    let paths = locator_keys(before.locator_extents@);
    assert forall|k: int| 0 <= k < plan.inputs@.len() implies is_listed(
        before.segments@,
        plan.view@,
        (#[trigger] plan.inputs@[k]).seg_id@,
    ) by {}
    assert forall|k: int| 0 <= k < plan.inputs@.len() implies held.subrange(
        runs,
        runs + plan.inputs@.len(),
    )[k] == #[trigger] plan.runs()[k] by {
        assert(before.external_id_runs@[runs + k]@ == plan.runs()[k]);
    }
    assert forall|k: int| 0 <= k < plan.inputs@.len() implies paths.subrange(
        locators,
        locators + plan.inputs@.len(),
    )[k] == #[trigger] plan.locators()[k] by {
        assert(before.locator_extents@[locators + k].path@ == plan.locators()[k]);
    }
    assert(held.subrange(runs, runs + plan.inputs@.len()) =~= plan.runs());
    assert(paths.subrange(locators, locators + plan.inputs@.len()) =~= plan.locators());
    assert(stands_at(held, plan.runs(), runs));
    assert(stands_at(paths, plan.locators(), locators));
}

/// What an applied merge makes of the segments: those it consumed, in its view, are gone, the others
/// stay in order, and the merged one stands where the first consumed one stood.
pub proof fn law_an_applied_merge_replaces_its_segments(
    before: SegmentsManifest,
    completed: CompletedMerge,
    names: SegmentNames,
    after: SegmentsManifest,
) -> (found: (int, Seq<int>))
    requires
        rebased_to(before, completed, names, true, after),
        forall|k: int|
            segment_at(
                before.segments@,
                completed.plan.view@,
                completed.plan.inputs@[0].seg_id@,
                k,
            ) ==> k <= kept_segments(before.segments@, completed.plan).len(),
    ensures
        ({
            let plan = completed.plan;
            let (first, at) = found;
            &&& 0 <= first < before.segments@.len()
            &&& before.segments@[first].view@ == plan.view@
            &&& before.segments@[first].seg_id@ == plan.inputs@[0].seg_id@
            &&& first <= at.len()
            &&& after.segments@.len() == at.len() + 1
            &&& after.segments@[first] == completed.output.segment
            &&& forall|k: int, l: int| 0 <= k < l < at.len() ==> at[k] < at[l]
            &&& forall|k: int|
                0 <= k < at.len() ==> 0 <= #[trigger] at[k] < before.segments@.len()
                    && before.segments@[at[k]] == after.segments@[if k < first {
                    k
                } else {
                    k + 1
                }]
            &&& forall|e: int|
                0 <= e < before.segments@.len() ==> (at.contains(e) <==> !((
                #[trigger] before.segments@[e]).view@ == plan.view@ && exists|k: int|
                    0 <= k < plan.inputs@.len() && (#[trigger] plan.inputs@[k]).seg_id@
                        == before.segments@[e].seg_id@))
        }),
{
    let plan = completed.plan;
    let first = choose|k: int|
        #[trigger] segment_at(before.segments@, plan.view@, plan.inputs@[0].seg_id@, k)
            && after.segments@ == kept_segments(before.segments@, plan).insert(
            k,
            completed.output.segment,
        );
    let keeps = |s: SegmentDescriptor| !(s.view@ == plan.view@ && plan.consumes(s.seg_id@));
    let at = lemma_filter_positions(before.segments@, keeps);
    let kept = kept_segments(before.segments@, plan);
    assert forall|e: int| 0 <= e < before.segments@.len() implies (at.contains(e) <==> !((
    #[trigger] before.segments@[e]).view@ == plan.view@ && exists|k: int|
        0 <= k < plan.inputs@.len() && (#[trigger] plan.inputs@[k]).seg_id@
            == before.segments@[e].seg_id@)) by {
        assert(keeps(before.segments@[e]) == !(before.segments@[e].view@ == plan.view@
            && plan.consumes(before.segments@[e].seg_id@)));
        if at.contains(e) {
            let k = choose|k: int| 0 <= k < at.len() && at[k] == e;
            assert(keeps(before.segments@[at[k]]));
        }
    }
    assert forall|k: int| 0 <= k < at.len() implies 0 <= #[trigger] at[k] < before.segments@.len()
        && before.segments@[at[k]] == after.segments@[if k < first {
        k
    } else {
        k + 1
    }] by {
        assert(before.segments@[at[k]] == kept[k]);
    }
    (first, at)
}

/// What an applied merge makes of the runs and the locators: the consumed ones, which stood one
/// after another, make way for the merged one, and the others stay in order around it.
pub proof fn law_an_applied_merge_replaces_its_runs(
    before: SegmentsManifest,
    completed: CompletedMerge,
    names: SegmentNames,
    after: SegmentsManifest,
) -> (at: (int, int))
    requires
        completed.plan.inputs@.len() > 0,
        rebased_to(before, completed, names, true, after),
    ensures
        ({
            let plan = completed.plan;
            let n = plan.inputs@.len();
            let (runs, locators) = at;
            &&& 0 <= runs <= before.external_id_runs@.len() - n
            &&& after.external_id_runs@.len() == before.external_id_runs@.len() - n + 1
            &&& after.external_id_runs@[runs] == completed.output.external_id_run
            &&& forall|j: int|
                0 <= j < runs ==> #[trigger] after.external_id_runs@[j]
                    == before.external_id_runs@[j]
            &&& forall|j: int|
                runs < j < after.external_id_runs@.len() ==> #[trigger] after.external_id_runs@[j]
                    == before.external_id_runs@[j + n - 1]
            &&& forall|k: int|
                0 <= k < n ==> #[trigger] before.external_id_runs@[runs + k]@ == "partitions/"@
                    + plan.partition@ + "/"@ + plan.view_rel@ + "/segments/"@
                    + plan.inputs@[k].seg_id@ + "/external-ids.arrow"@
            &&& 0 <= locators <= before.locator_extents@.len() - n
            &&& after.locator_extents@.len() == before.locator_extents@.len() - n + 1
            &&& after.locator_extents@[locators] == completed.output.locator_extent
            &&& forall|j: int|
                0 <= j < locators ==> #[trigger] after.locator_extents@[j]
                    == before.locator_extents@[j]
            &&& forall|j: int|
                locators < j < after.locator_extents@.len()
                    ==> #[trigger] after.locator_extents@[j] == before.locator_extents@[j + n - 1]
            &&& forall|k: int|
                0 <= k < n ==> #[trigger] before.locator_extents@[locators + k].path@
                    == "partitions/"@ + plan.partition@ + "/"@ + plan.view_rel@ + "/segments/"@
                    + plan.inputs@[k].seg_id@ + "/ext-locator.u32"@
        }),
{
    let plan = completed.plan;
    let n = plan.inputs@.len();
    let held = keys_of(before.external_id_runs@);
    let paths = locator_keys(before.locator_extents@);
    let runs = choose|at: int|
        #[trigger] first_stands(held, plan.runs(), at) && after.external_id_runs@
            == before.external_id_runs@.take(at).push(completed.output.external_id_run)
            + before.external_id_runs@.skip(at + n);
    let locators = choose|at: int|
        #[trigger] first_stands(paths, plan.locators(), at) && after.locator_extents@
            == before.locator_extents@.take(at).push(completed.output.locator_extent)
            + before.locator_extents@.skip(at + n);
    assert forall|k: int| 0 <= k < n implies #[trigger] before.external_id_runs@[runs + k]@
        == "partitions/"@ + plan.partition@ + "/"@ + plan.view_rel@ + "/segments/"@
        + plan.inputs@[k].seg_id@ + "/external-ids.arrow"@ by {
        assert(held.subrange(runs, runs + plan.runs().len())[k] == plan.runs()[k]);
        assert(held[runs + k] == before.external_id_runs@[runs + k]@);
    }
    assert forall|k: int| 0 <= k < n implies #[trigger] before.locator_extents@[locators + k].path@
        == "partitions/"@ + plan.partition@ + "/"@ + plan.view_rel@ + "/segments/"@
        + plan.inputs@[k].seg_id@ + "/ext-locator.u32"@ by {
        assert(paths.subrange(locators, locators + plan.locators().len())[k] == plan.locators()[k]);
        assert(paths[locators + k] == before.locator_extents@[locators + k].path@);
    }
    (runs, locators)
}

/// What an applied merge makes of the files: its own are listed, and of those that were listed the
/// others stay but for a path it wrote itself, and the Morton codes, the cut index, the columns, the
/// external ids, the locator and the presence bitmaps of the segments it consumed.
pub proof fn law_an_applied_merge_drops_the_files_it_replaces(
    before: SegmentsManifest,
    completed: CompletedMerge,
    names: SegmentNames,
    after: SegmentsManifest,
    file: FileEntry,
)
    requires
        rebased_to(before, completed, names, true, after),
    ensures
        after.files@.contains(file) <==> (completed.output.files@.contains(file) || (
        before.files@.contains(file) && !(exists|w: int|
            0 <= w < completed.output.files@.len() && (#[trigger] completed.output.files@[w]).path@
                == file.path@) && !(exists|k: int|
            0 <= k < completed.plan.inputs@.len() && ({
                let dir = "partitions/"@ + completed.plan.partition@ + "/"@
                    + completed.plan.view_rel@ + "/segments/"@ + (
                #[trigger] completed.plan.inputs@[k]).seg_id@;
                ||| file.path@ == dir + "/morton.u32"@
                ||| file.path@ == dir + "/"@ + names.cut_index@
                ||| file.path@ == dir + "/columns.arrow"@
                ||| file.path@ == dir + "/external-ids.arrow"@
                ||| file.path@ == dir + "/ext-locator.u32"@
                ||| (dir + "/"@ + names.presence_dir@ + "/"@).is_prefix_of(file.path@)
            })))),
{
    let plan = completed.plan;
    let written = completed.output.files@;
    let stays = |f: FileEntry| !(plan.drops(names, f.path@) || has_path(written, f.path@));
    let kept = kept_files(before.files@, plan, names, written);
    lemma_filter_members(before.files@, stays, file);
    assert(kept == before.files@.filter(stays));
    if plan.drops(names, file.path@) {
        let k = choose|k: int|
            0 <= k < plan.inputs@.len() && #[trigger] plan.drops_in(k, names, file.path@);
        assert(plan.inputs@[k].seg_id@ == plan.inputs@[k].seg_id@);
    }
    if exists|k: int|
        0 <= k < completed.plan.inputs@.len() && ({
            let dir = "partitions/"@ + completed.plan.partition@ + "/"@ + completed.plan.view_rel@
                + "/segments/"@ + (#[trigger] completed.plan.inputs@[k]).seg_id@;
            ||| file.path@ == dir + "/morton.u32"@
            ||| file.path@ == dir + "/"@ + names.cut_index@
            ||| file.path@ == dir + "/columns.arrow"@
            ||| file.path@ == dir + "/external-ids.arrow"@
            ||| file.path@ == dir + "/ext-locator.u32"@
            ||| (dir + "/"@ + names.presence_dir@ + "/"@).is_prefix_of(file.path@)
        }) {
        let k = choose|k: int|
            0 <= k < completed.plan.inputs@.len() && ({
                let dir = "partitions/"@ + completed.plan.partition@ + "/"@
                    + completed.plan.view_rel@ + "/segments/"@ + (
                #[trigger] completed.plan.inputs@[k]).seg_id@;
                ||| file.path@ == dir + "/morton.u32"@
                ||| file.path@ == dir + "/"@ + names.cut_index@
                ||| file.path@ == dir + "/columns.arrow"@
                ||| file.path@ == dir + "/external-ids.arrow"@
                ||| file.path@ == dir + "/ext-locator.u32"@
                ||| (dir + "/"@ + names.presence_dir@ + "/"@).is_prefix_of(file.path@)
            });
        assert(plan.drops_in(k, names, file.path@));
    }
    let all = kept + written;
    if kept.contains(file) {
        let i = choose|i: int| 0 <= i < kept.len() && kept[i] == file;
        assert(all[i] == file);
    }
    if written.contains(file) {
        let i = choose|i: int| 0 <= i < written.len() && written[i] == file;
        assert(all[kept.len() + i] == file);
    }
}

/// A view is sized for a merge exactly where the source has not stepped down, the view is live and
/// it has at least as many extents as a tier is wide; it then has one size for each extent, made of
/// the files under that extent's own segment.
pub proof fn law_a_view_is_sized_by_its_own_segments(
    source: MergeSource,
    i: int,
    tier_width: usize,
    out: Option<Vec<u64>>,
    k: int,
)
    requires
        sized(source, i, tier_width, out),
        0 <= i < source.views@.len(),
    ensures
        out is Some <==> !source.stepped_down && source.views@[i].live
            && source.views@[i].extents@.len() >= tier_width,
        out matches Some(list) ==> {
            &&& list@.len() == source.views@[i].extents@.len()
            &&& 0 <= k < list@.len() ==> list@[k] == bytes_under(
                source.files@,
                "partitions/"@ + source.partition@ + "/"@ + source.views@[i].view_rel@
                    + "/segments/"@ + source.views@[i].extents@[k].seg_id@ + "/"@,
                source.files@.len() as int,
            )
        },
{
}

} // verus!
