//! What an artifacts read takes a layer by: the layer resolved for one viewer, and one level of it
//! counted under one mask and one filter.

use croaring::Bitmap;
use vstd::prelude::*;

use crate::bitmap;
use crate::bitmap::{bits, lemma_finite};
use crate::text::{find, lists};

verus! {

/// A layer's hierarchy. Every kind with one level is flat here.
#[derive(Clone, Copy, Debug, PartialEq, Eq, Structural)]
pub enum HierarchyKind {
    Flat,
    Stacked,
    Tiered,
}

/// Why a layer or a level named by a request cannot be read.
#[derive(Clone, Copy, Debug, PartialEq, Eq, Structural)]
pub enum LayerRefusal {
    /// Not a layer published to this viewer in this view, or one suppressed or deleted: one answer
    /// for every reason.
    Unknown,
    /// A level on a kind with one level.
    OneLevel(HierarchyKind),
    /// A level past the ones the layer holds.
    NoSuchLevel { held: usize },
}

/// A registered layer.
#[derive(Clone, Debug)]
pub struct RegisteredLayer {
    pub name: String,
    pub entity: u64,
    pub kind: HierarchyKind,
    /// The views the layer is declared in.
    pub views: Vec<String>,
    /// How many levels it holds.
    pub levels: u32,
}

/// What stands under a layer's name.
#[derive(Clone, Debug)]
pub struct Registration {
    pub layer: RegisteredLayer,
    pub deleted: bool,
    pub suppressed: bool,
}

/// Whether a viewer who reaches these layers may read a layer in a view.
pub open spec fn readable(
    reachable: Seq<String>,
    registered: Option<Registration>,
    name: Seq<char>,
    view: Seq<char>,
) -> bool {
    &&& lists(reachable, name)
    &&& registered is Some
    &&& lists(registered->0.layer.views@, view)
    &&& !registered->0.deleted
    &&& !registered->0.suppressed
}

/// The layer as this viewer may read it in a view.
pub fn readable_layer<'a>(
    reachable: &Vec<String>,
    registered: &'a Option<Registration>,
    name: &str,
    view: &str,
) -> (out: Result<&'a RegisteredLayer, LayerRefusal>)
    ensures
        out is Ok <==> readable(reachable@, *registered, name@, view@),
        out matches Ok(layer) ==> *layer == registered->0.layer,
        out matches Err(why) ==> why == LayerRefusal::Unknown,
{
    if find(reachable, name).is_none() {
        return Err(LayerRefusal::Unknown);
    }
    match registered {
        None => Err(LayerRefusal::Unknown),
        Some(held) => {
            if find(&held.layer.views, view).is_none() || held.deleted || held.suppressed {
                return Err(LayerRefusal::Unknown);
            }
            Ok(&held.layer)
        },
    }
}

/// Why a layer does not hold the level a request named, if it does not.
pub open spec fn level_refusal(layer: RegisteredLayer, level: Option<u32>) -> Option<LayerRefusal> {
    match level {
        None => None,
        Some(level) => if layer.kind == HierarchyKind::Flat {
            Some(LayerRefusal::OneLevel(layer.kind))
        } else if level >= layer.levels {
            Some(LayerRefusal::NoSuchLevel { held: layer.levels as usize })
        } else {
            None
        },
    }
}

/// Whether a layer holds the level a request named: a kind with one level holds none to name.
pub fn check_level(layer: &RegisteredLayer, level: Option<u32>) -> (out: Result<(), LayerRefusal>)
    ensures
        out is Ok <==> level_refusal(*layer, level) is None,
        out matches Err(why) ==> level_refusal(*layer, level) == Some(why),
{
    match level {
        None => Ok(()),
        Some(level) => {
            if layer.kind == HierarchyKind::Flat {
                return Err(LayerRefusal::OneLevel(layer.kind));
            }
            if level >= layer.levels {
                return Err(LayerRefusal::NoSuchLevel { held: layer.levels as usize });
            }
            Ok(())
        },
    }
}

/// A level's row form.
#[derive(Debug)]
pub struct ArtifactRows {
    /// How many artifacts the level holds.
    pub artifacts: u32,
    /// Each row's artifact, on a level served from its column.
    pub column: Option<Vec<Option<u32>>>,
    /// Each artifact's rows, at its ordinal, where they are held.
    pub members: Vec<Option<Bitmap>>,
}

/// The rows of a set that a column gives to an artifact.
pub open spec fn labelled(column: Seq<Option<u32>>, ordinal: u32, rows: Set<u32>) -> Set<u32> {
    Set::new(
        |row: u32| rows.contains(row) && row < column.len() && column[row as int] == Some(ordinal),
    )
}

/// How many rows of a set a column gives to each artifact of a level.
pub fn histogram_over(column: &Vec<Option<u32>>, artifacts: u32, rows: &Bitmap) -> (counts: Vec<u32>)
    requires
        column@.len() <= u32::MAX,
    ensures
        counts@.len() == artifacts,
        forall|a: int|
            0 <= a < artifacts ==> (#[trigger] counts@[a]) == labelled(
                column@,
                a as u32,
                bits(*rows),
            ).len(),
{
    let mut counts: Vec<u32> = Vec::new();
    let mut a: u32 = 0;
    while a < artifacts
        invariant
            a <= artifacts,
            counts@.len() == a,
            forall|k: int| 0 <= k < a ==> (#[trigger] counts@[k]) == 0,
        decreases artifacts - a,
    {
        counts.push(0);
        a += 1;
    }
    let list = bitmap::elements(rows);
    let mut i: usize = 0;
    proof {
        assert(list@.take(0).to_set() =~= Set::empty());
        assert forall|k: int| 0 <= k < artifacts implies (#[trigger] counts@[k]) == labelled(
            column@,
            k as u32,
            list@.take(0).to_set(),
        ).len() by {
            assert(labelled(column@, k as u32, list@.take(0).to_set()) =~= Set::empty());
        }
    }
    while i < list.len()
        invariant
            i <= list@.len(),
            crate::bitmap::ascending(list@),
            column@.len() <= u32::MAX,
            counts@.len() == artifacts,
            forall|k: int|
                0 <= k < artifacts ==> (#[trigger] counts@[k]) == labelled(
                    column@,
                    k as u32,
                    list@.take(i as int).to_set(),
                ).len(),
        decreases list@.len() - i,
    {
        let row: u32 = list[i];
        let ghost before = list@.take(i as int).to_set();
        let ghost after = list@.take(i + 1).to_set();
        let ghost earlier = counts@;
        proof {
            assert(list@.take(i + 1) =~= list@.take(i as int).push(row));
            assert(after =~= before.insert(row)) by {
                assert forall|x: u32| after.contains(x) == before.insert(row).contains(x) by {
                    if before.contains(x) {
                        let k = choose|k: int| 0 <= k < i && list@.take(i as int)[k] == x;
                        assert(list@.take(i + 1)[k] == x);
                    }
                    if x == row {
                        assert(list@.take(i + 1)[i as int] == x);
                    }
                }
            }
            assert(!before.contains(row)) by {
                if before.contains(row) {
                    let k = choose|k: int| 0 <= k < i && list@.take(i as int)[k] == row;
                    assert(list@[k] < list@[i as int]);
                }
            }
        }
        if (row as usize) < column.len() {
            if let Some(label) = column[row as usize] {
                if label < artifacts {
                    proof {
                        let was = labelled(column@, label, before);
                        let now = labelled(column@, label, after);
                        assert(now =~= was.insert(row));
                        lemma_finite(was);
                        lemma_finite(now);
                        let whole = crate::bitmap::span(0, column@.len() as int);
                        crate::bitmap::lemma_span_len(0, column@.len() as int);
                        lemma_finite(whole);
                        assert(now.subset_of(whole));
                        vstd::set_lib::lemma_len_subset(now, whole);
                    }
                    counts.set(label as usize, counts[label as usize] + 1);
                }
            }
        }
        proof {
            assert forall|k: int| 0 <= k < artifacts implies (#[trigger] counts@[k]) == labelled(
                column@,
                k as u32,
                after,
            ).len() by {
                let was = labelled(column@, k as u32, before);
                let now = labelled(column@, k as u32, after);
                assert(earlier[k] == was.len());
                lemma_finite(was);
                if row < column@.len() && column@[row as int] == Some(k as u32) {
                    assert(now =~= was.insert(row));
                } else {
                    assert(now =~= was);
                }
            }
        }
        i += 1;
    }
    proof {
        assert(list@.take(i as int) =~= list@);
    }
    counts
}

/// One level of one layer, counted under one mask and one filter.
#[derive(Debug)]
pub struct GatedLevel {
    pub level: u32,
    pub rows: ArtifactRows,
    /// Each artifact's visible members matching the filter, on a level served from its column.
    pub filtered: Option<Vec<u32>>,
}

impl GatedLevel {
    /// Whether the filtered counts are those of a mask and a filter.
    pub open spec fn counts_under(&self, mask: Set<u32>, filter: Option<Set<u32>>) -> bool {
        &&& self.filtered is Some <==> self.rows.column is Some && filter is Some
        &&& self.filtered matches Some(counts) ==> counts@.len() == self.rows.artifacts
            && forall|a: int|
            0 <= a < counts@.len() ==> (#[trigger] counts@[a]) == labelled(
                self.rows.column->0@,
                a as u32,
                mask.intersect(filter->0),
            ).len()
    }

    /// How many of an artifact's visible members are among the filter's rows: read off the filtered
    /// counts where the level has them, and counted over the artifact's members otherwise.
    pub open spec fn matched(&self, ordinal: u32, mask: Set<u32>, filter: Set<u32>) -> nat {
        match self.filtered {
            Some(counts) => if ordinal < counts@.len() {
                counts@[ordinal as int] as nat
            } else {
                0
            },
            None => if ordinal < self.rows.members@.len() {
                match self.rows.members@[ordinal as int] {
                    Some(members) => bits(members).intersect(mask).intersect(filter).len(),
                    None => 0,
                }
            } else {
                0
            },
        }
    }

    /// How many of an artifact's visible members are among the filter's rows.
    pub fn matched_count(&self, ordinal: u32, mask: &Bitmap, filter_rows: &Bitmap) -> (count: u64)
        ensures
            count == self.matched(ordinal, bits(*mask), bits(*filter_rows)),
    {
        match &self.filtered {
            Some(counts) => if (ordinal as usize) < counts.len() {
                counts[ordinal as usize] as u64
            } else {
                0
            },
            None => {
                if (ordinal as usize) < self.rows.members.len() {
                    if let Some(members) = &self.rows.members[ordinal as usize] {
                        let mut visible = bitmap::copy(members);
                        bitmap::intersect_with(&mut visible, mask);
                        return bitmap::and_cardinality(&visible, filter_rows);
                    }
                }
                0
            },
        }
    }
}

/// One level of a layer under a mask: its row form and, where there is a filter and the level is
/// served from its column, the filtered count of every artifact in one walk.
pub fn gated_level(
    level: u32,
    rows: ArtifactRows,
    mask: &Bitmap,
    filter_rows: &Option<Bitmap>,
) -> (gated: GatedLevel)
    requires
        rows.column matches Some(column) ==> column@.len() <= u32::MAX,
    ensures
        gated.level == level,
        gated.rows == rows,
        gated.counts_under(
            bits(*mask),
            match *filter_rows {
                Some(rows) => Some(bits(rows)),
                None => None,
            },
        ),
{
    let filtered: Option<Vec<u32>> = match &rows.column {
        Some(column) => match filter_rows {
            Some(filter_rows) => {
                let mut visible = bitmap::copy(mask);
                bitmap::intersect_with(&mut visible, filter_rows);
                Some(histogram_over(column, rows.artifacts, &visible))
            },
            None => None,
        },
        None => None,
    };
    GatedLevel { level, rows, filtered }
}

/// A level counts the same members of an artifact whichever form it is served from: where its
/// column gives an artifact exactly the rows its members are, the filtered count is the count of
/// the members the mask and the filter admit.
pub proof fn law_the_column_counts_the_members(
    gated: GatedLevel,
    ordinal: u32,
    mask: Set<u32>,
    filter: Set<u32>,
    members: Set<u32>,
)
    requires
        gated.counts_under(mask, Some(filter)),
        gated.rows.column is Some,
        ordinal < gated.rows.artifacts,
        forall|row: u32| #[trigger]
            members.contains(row) <==> row < gated.rows.column->0@.len()
                && gated.rows.column->0@[row as int] == Some(ordinal),
    ensures
        gated.matched(ordinal, mask, filter) == members.intersect(mask).intersect(filter).len(),
{
    assert(gated.filtered->0@[ordinal as int] == labelled(
        gated.rows.column->0@,
        ordinal,
        mask.intersect(filter),
    ).len());
    assert(labelled(gated.rows.column->0@, ordinal, mask.intersect(filter)) =~= members.intersect(
        mask,
    ).intersect(filter));
}

/// A level that is not served from its column counts the members an artifact holds that the mask and
/// the filter both admit, and none of an artifact it holds no members of.
pub proof fn law_the_members_are_counted_where_there_is_no_column(
    gated: GatedLevel,
    ordinal: u32,
    mask: Set<u32>,
    filter: Set<u32>,
)
    requires
        gated.counts_under(mask, Some(filter)),
        gated.rows.column is None,
    ensures
        ordinal < gated.rows.members@.len() && gated.rows.members@[ordinal as int] is Some
            ==> gated.matched(ordinal, mask, filter) == Set::new(
            |row: u32|
                bits(gated.rows.members@[ordinal as int]->0).contains(row) && mask.contains(row)
                    && filter.contains(row),
        ).len(),
        ordinal < gated.rows.members@.len() && gated.rows.members@[ordinal as int] is None
            ==> gated.matched(ordinal, mask, filter) == 0,
        ordinal >= gated.rows.members@.len() ==> gated.matched(ordinal, mask, filter) == 0,
{
    if ordinal < gated.rows.members@.len() && gated.rows.members@[ordinal as int] is Some {
        let members = bits(gated.rows.members@[ordinal as int]->0);
        assert(members.intersect(mask).intersect(filter) =~= Set::new(
            |row: u32| members.contains(row) && mask.contains(row) && filter.contains(row),
        ));
    }
}

/// A layer is read in a view only where the principal reaches it and it is registered in that view,
/// neither deleted nor suppressed.
pub proof fn law_a_layer_is_read_where_it_is_reached_and_live(
    reachable: Seq<String>,
    registered: Option<Registration>,
    name: Seq<char>,
    view: Seq<char>,
)
    ensures
        readable(reachable, registered, name, view) <==> ({
            &&& exists|k: int| 0 <= k < reachable.len() && (#[trigger] reachable[k])@ == name
            &&& registered is Some
            &&& exists|k: int|
                0 <= k < registered->0.layer.views@.len() && (
                #[trigger] registered->0.layer.views@[k])@ == view
            &&& !registered->0.deleted
            &&& !registered->0.suppressed
        }),
{
}

/// A level is named only of a layer that has several, and holds it.
pub proof fn law_a_level_is_named_of_a_layer_that_holds_it(
    layer: RegisteredLayer,
    level: Option<u32>,
)
    ensures
        ({
            let refusal = level_refusal(layer, level);
            &&& refusal is None <==> level is None || (!(layer.kind is Flat) && level->0
                < layer.levels)
            &&& refusal is Some && refusal->0 is OneLevel <==> level is Some && layer.kind is Flat
            &&& refusal is Some && refusal->0 is NoSuchLevel ==> refusal->0->held == layer.levels
            &&& !(refusal is Some && refusal->0 is Unknown)
        }),
{
}

/// A column gives an artifact the rows that name it, and no others.
pub proof fn law_a_column_gives_each_artifact_its_rows(
    column: Seq<Option<u32>>,
    ordinal: u32,
    rows: Set<u32>,
    row: u32,
)
    ensures
        labelled(column, ordinal, rows).contains(row) ==> rows.contains(row),
        labelled(column, ordinal, rows).contains(row) ==> row < column.len() && column[row as int]
            is Some && column[row as int]->0 == ordinal,
        rows.contains(row) && row < column.len() && column[row as int] == Some(ordinal) ==> labelled(
            column,
            ordinal,
            rows,
        ).contains(row),
{
}

} // verus!
