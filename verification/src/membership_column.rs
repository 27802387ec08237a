//! The per-point membership column: for each served point and each layer a response served
//! artifacts from, the identifier of the deepest served artifact the point belongs to, or none.
//!
//! A level is served in one of two layouts and the column is read off whichever it has. Row-major,
//! each row holds its labels, and the served ancestors of a label are found by climbing the level's
//! lineage. Artifact-major, only each artifact's rows are held, and they are intersected with the
//! response's rows, one intersection per served artifact.
//!
//! Deeper is the rung in the response and never the stored depth, so an artifact the response
//! withheld does not decide between two that it served. A tie is broken by the lowest identifier.

use croaring::Bitmap;
use vstd::prelude::*;

use crate::bitmap;
use crate::bitmap::{ascending, bits};
use crate::lineage::{
    higher, highest, law_an_artifact_reaches_its_ancestors, lemma_one_highest, rank_at, served_once,
    Lineage, Rank, ServedArtifact,
};
use crate::order::{search, sorted_distinct_u32, strictly_sorted, ties, Ranked};
use crate::seqs::{lemma_filter_empty, lemma_filter_positions, lemma_filter_step};

verus! {

/// One layer's membership column for a chunk of points: `None` where no served artifact of the
/// layer holds the point.
#[derive(Clone, Debug, PartialEq)]
pub struct MembershipColumn {
    pub layer: String,
    pub ids: Vec<Option<u64>>,
}

/// The layout a level is served in.
#[derive(Debug)]
pub enum LevelRows {
    /// Each row's labels, at the row.
    RowMajor(Vec<Vec<u32>>),
    /// Each artifact's rows, at its ordinal, where the level holds the artifact.
    ArtifactMajor(Vec<Option<Bitmap>>),
}

/// One level a response served artifacts from.
#[derive(Debug)]
pub struct ServedLevel {
    pub level: u32,
    pub rows: LevelRows,
    pub lineage: Lineage,
    /// Exactly the artifacts of this level in the response.
    pub served: Vec<ServedArtifact>,
}

/// One layer a response served artifacts from, with its served levels.
#[derive(Debug)]
pub struct ServedLayer {
    pub name: String,
    pub levels: Vec<ServedLevel>,
}

impl ServedLevel {
    /// Each artifact is served once.
    pub open spec fn wf(&self) -> bool {
        served_once(self.served@)
    }

    /// Whether an artifact of the level holds a row.
    pub open spec fn holds(&self, ordinal: u32, row: u32) -> bool {
        match self.rows {
            LevelRows::RowMajor(labels) => row < labels@.len() && exists|j: int|
                0 <= j < labels@[row as int]@.len() && self.lineage.reaches(
                    #[trigger] labels@[row as int]@[j],
                    ordinal,
                ),
            LevelRows::ArtifactMajor(members) => ordinal < members@.len() && (
            members@[ordinal as int] matches Some(rows) && bits(rows).contains(row)),
        }
    }

    /// The ranks of the served artifacts that hold a row.
    pub open spec fn candidates(&self, row: u32) -> Set<Rank> {
        Set::new(
            |rank: Rank|
                exists|k: int|
                    0 <= k < self.served@.len() && self.holds((#[trigger] self.served@[k]).ordinal, row)
                        && rank == rank_at(self.level, self.served@, k),
        )
    }
}

impl ServedLayer {
    /// Each artifact of a level is served once.
    pub open spec fn wf(&self) -> bool {
        forall|l: int| 0 <= l < self.levels@.len() ==> (#[trigger] self.levels@[l]).wf()
    }

    /// The ranks of the artifacts of the first `n` levels that hold a row.
    pub open spec fn candidates_before(&self, n: int, row: u32) -> Set<Rank> {
        Set::new(
            |rank: Rank|
                exists|l: int|
                    0 <= l < n && (#[trigger] self.levels@[l]).candidates(row).contains(rank),
        )
    }

    /// The ranks of the served artifacts that hold a row.
    pub open spec fn candidates(&self, row: u32) -> Set<Rank> {
        self.candidates_before(self.levels@.len() as int, row)
    }

    /// Whether the response serves an artifact of the layer.
    pub open spec fn serves(&self) -> bool {
        exists|l: int| 0 <= l < self.levels@.len() && (#[trigger] self.levels@[l]).served@.len() > 0
    }
}

/// The highest of a set of ranks, where there is one.
pub open spec fn best_of(ranks: Set<Rank>) -> Option<Rank> {
    choose|best: Option<Rank>| highest(ranks, best)
}

/// The deepest served artifact of a layer that holds a row.
pub open spec fn deepest(layer: ServedLayer, row: u32) -> Option<u64> {
    match best_of(layer.candidates(row)) {
        Some(rank) => Some(rank.id),
        None => None,
    }
}

proof fn lemma_best(ranks: Set<Rank>, best: Option<Rank>)
    requires
        highest(ranks, best),
    ensures
        best_of(ranks) == best,
{
    lemma_one_highest(ranks, best_of(ranks), best);
}

/// The served artifact that holds a row is the one that no other outranks.
pub proof fn law_the_deepest_served_artifact_holds_the_row(
    layer: ServedLayer,
    row: u32,
    l: int,
    k: int,
    best: Option<Rank>,
)
    requires
        highest(layer.candidates(row), best),
        0 <= l < layer.levels@.len(),
        0 <= k < layer.levels@[l].served@.len(),
        layer.levels@[l].holds(layer.levels@[l].served@[k].ordinal, row),
    ensures
        best is Some,
        deepest(layer, row) == Some(best->0.id),
        !rank_at(layer.levels@[l].level, layer.levels@[l].served@, k).above(best->0),
{
    let rank = rank_at(layer.levels@[l].level, layer.levels@[l].served@, k);
    assert(layer.levels@[l].served@[k].ordinal == layer.levels@[l].served@[k].ordinal);
    assert(layer.levels@[l].candidates(row).contains(rank));
    assert(layer.candidates(row).contains(rank));
    lemma_best(layer.candidates(row), best);
}

/// Whether two layers serve the same artifacts, which hold the same rows.
pub open spec fn serve_alike(a: ServedLayer, b: ServedLayer) -> bool {
    &&& a.levels@.len() == b.levels@.len()
    &&& forall|l: int|
        0 <= l < a.levels@.len() ==> (#[trigger] a.levels@[l]).level == b.levels@[l].level
            && a.levels@[l].served@ == b.levels@[l].served@
    &&& forall|l: int, k: int, row: u32|
        0 <= l < a.levels@.len() && 0 <= k < a.levels@[l].served@.len() ==> #[trigger] a.levels@[l].holds(
            a.levels@[l].served@[k].ordinal,
            row,
        ) == b.levels@[l].holds(a.levels@[l].served@[k].ordinal, row)
}

/// Two layers that serve the same artifacts, holding the same rows, have one column, whatever
/// layout each level has and whatever their lineages hold besides: the two routes agree, and an
/// artifact that is not served decides nothing.
pub proof fn law_the_routes_agree(a: ServedLayer, b: ServedLayer, row: u32)
    requires
        serve_alike(a, b),
    ensures
        deepest(a, row) == deepest(b, row),
{
    assert forall|l: int, rank: Rank|
        0 <= l < a.levels@.len() implies #[trigger] a.levels@[l].candidates(row).contains(rank)
        == b.levels@[l].candidates(row).contains(rank) by {
        let x = a.levels@[l];
        let y = b.levels@[l];
        assert(x.served@ == y.served@ && x.level == y.level);
        if x.candidates(row).contains(rank) {
            let k = choose|k: int|
                0 <= k < x.served@.len() && x.holds((#[trigger] x.served@[k]).ordinal, row) && rank
                    == rank_at(x.level, x.served@, k);
            assert(y.holds(y.served@[k].ordinal, row));
        }
        if y.candidates(row).contains(rank) {
            let k = choose|k: int|
                0 <= k < y.served@.len() && y.holds((#[trigger] y.served@[k]).ordinal, row) && rank
                    == rank_at(y.level, y.served@, k);
            assert(a.levels@[l].holds(a.levels@[l].served@[k].ordinal, row));
            assert(x.holds(x.served@[k].ordinal, row));
        }
    }
    assert forall|rank: Rank| a.candidates(row).contains(rank) == b.candidates(row).contains(
        rank,
    ) by {
        if a.candidates(row).contains(rank) {
            let l = choose|l: int|
                0 <= l < a.levels@.len() && (#[trigger] a.levels@[l]).candidates(row).contains(rank);
            assert(b.levels@[l].candidates(row).contains(rank));
        }
        if b.candidates(row).contains(rank) {
            let l = choose|l: int|
                0 <= l < b.levels@.len() && (#[trigger] b.levels@[l]).candidates(row).contains(rank);
            assert(a.levels@[l].candidates(row).contains(rank));
        }
    }
    assert(a.candidates(row) =~= b.candidates(row));
}

/// Where a row stands in an ascending list.
fn index_of(rows: &Vec<u32>, row: u32) -> (at: Option<usize>)
    requires
        ascending(rows@),
    ensures
        at is Some <==> rows@.contains(row),
        at matches Some(i) ==> i < rows@.len() && rows@[i as int] == row,
{
    assert(strictly_sorted(rows@)) by {
        assert forall|i: int, j: int| 0 <= i < j < rows@.len() implies (
        #[trigger] rows@[i]).precedes(#[trigger] rows@[j]) && !rows@[j].precedes(rows@[i]) by {}
    }
    let at = search(rows, &row);
    proof {
        if rows@.contains(row) {
            let k = choose|k: int| 0 <= k < rows@.len() && rows@[k] == row;
            assert(ties(rows@[k], row));
        }
    }
    at
}

/// The ranks a row had before, and those of the first `n` served artifacts that hold it.
spec fn with_served(before: Set<Rank>, level: ServedLevel, n: int, row: u32) -> Set<Rank> {
    Set::new(
        |rank: Rank|
            before.contains(rank) || exists|k: int|
                0 <= k < n && level.holds((#[trigger] level.served@[k]).ordinal, row) && rank
                    == rank_at(level.level, level.served@, k),
    )
}

/// An artifact-major level: each served artifact's rows against the response's.
fn by_artifact(
    rows: &Vec<u32>,
    within: &Bitmap,
    level: &ServedLevel,
    members: &Vec<Option<Bitmap>>,
    best: &mut Vec<Option<Rank>>,
    Ghost(before): Ghost<Seq<Set<Rank>>>,
)
    requires
        ascending(rows@),
        bits(*within) == rows@.to_set(),
        level.rows == LevelRows::ArtifactMajor(*members),
        old(best)@.len() == rows@.len() == before.len(),
        forall|i: int| 0 <= i < rows@.len() ==> highest(before[i], #[trigger] old(best)@[i]),
    ensures
        final(best)@.len() == rows@.len(),
        forall|i: int|
            0 <= i < rows@.len() ==> highest(
                before[i].union(level.candidates(rows@[i])),
                #[trigger] final(best)@[i],
            ),
{
    let mut s: usize = 0;
    proof {
        assert forall|i: int| 0 <= i < rows@.len() implies highest(
            with_served(before[i], *level, 0, rows@[i]),
            #[trigger] best@[i],
        ) by {
            assert(with_served(before[i], *level, 0, rows@[i]) =~= before[i]);
        }
    }
    while s < level.served.len()
        invariant
            s <= level.served@.len(),
            ascending(rows@),
            bits(*within) == rows@.to_set(),
            level.rows == LevelRows::ArtifactMajor(*members),
            best@.len() == rows@.len() == before.len(),
            forall|i: int|
                0 <= i < rows@.len() ==> highest(
                    with_served(before[i], *level, s as int, rows@[i]),
                    #[trigger] best@[i],
                ),
        decreases level.served@.len() - s,
    {
        let artifact = level.served[s];
        let rank = Rank { level: level.level, rung: artifact.rung, id: artifact.id };
        let ghost mut held: Seq<u32> = Seq::empty();
        let ghost prior = Seq::new(
            rows@.len(),
            |i: int| with_served(before[i], *level, s as int, rows@[i]),
        );
        if (artifact.ordinal as usize) < members.len() {
            if let Some(own) = &members[artifact.ordinal as usize] {
                let mut shared = bitmap::copy(own);
                bitmap::intersect_with(&mut shared, within);
                let hits = bitmap::elements(&shared);
                proof {
                    held = hits@;
                }
                let mut h: usize = 0;
                assert forall|i: int| 0 <= i < rows@.len() implies highest(
                    if hits@.take(0).contains(rows@[i]) {
                        prior[i].insert(rank)
                    } else {
                        prior[i]
                    },
                    #[trigger] best@[i],
                ) by {}
                while h < hits.len()
                    invariant
                        h <= hits@.len(),
                        ascending(rows@),
                        ascending(hits@),
                        best@.len() == rows@.len() == prior.len(),
                        forall|i: int|
                            0 <= i < rows@.len() ==> highest(
                                if hits@.take(h as int).contains(rows@[i]) {
                                    prior[i].insert(rank)
                                } else {
                                    prior[i]
                                },
                                #[trigger] best@[i],
                            ),
                    decreases hits@.len() - h,
                {
                    let row: u32 = hits[h];
                    assert(hits@.take(h + 1) =~= hits@.take(h as int).push(row));
                    let ghost earlier = best@;
                    assert(!hits@.take(h as int).contains(row)) by {
                        if hits@.take(h as int).contains(row) {
                            let k = choose|k: int|
                                0 <= k < h && hits@.take(h as int)[k] == row;
                            assert(hits@[k] < hits@[h as int]);
                        }
                    }
                    if let Some(i) = index_of(rows, row) {
                        assert(highest(prior[i as int], best@[i as int]));
                        assert(highest(Set::<Rank>::empty().insert(rank), Some(rank)));
                        let now = higher(
                            best[i],
                            Some(rank),
                            Ghost(prior[i as int]),
                            Ghost(Set::<Rank>::empty().insert(rank)),
                        );
                        best.set(i, now);
                        assert(prior[i as int].union(Set::<Rank>::empty().insert(rank)) =~= prior[i as int].insert(rank));
                        assert forall|j: int| 0 <= j < rows@.len() && j != i implies rows@[j]
                            != row by {
                            if j < i {
                                assert(rows@[j] < rows@[i as int]);
                            } else {
                                assert(rows@[i as int] < rows@[j]);
                            }
                        }
                    }
                    proof {
                        assert forall|j: int| 0 <= j < rows@.len() implies highest(
                            if hits@.take(h + 1).contains(rows@[j]) {
                                prior[j].insert(rank)
                            } else {
                                prior[j]
                            },
                            #[trigger] best@[j],
                        ) by {
                            assert(highest(
                                if hits@.take(h as int).contains(rows@[j]) {
                                    prior[j].insert(rank)
                                } else {
                                    prior[j]
                                },
                                earlier[j],
                            ));
                            let grown = hits@.take(h as int).push(row);
                            assert(grown.contains(rows@[j]) == (hits@.take(h as int).contains(
                                rows@[j],
                            ) || rows@[j] == row)) by {
                                if hits@.take(h as int).contains(rows@[j]) {
                                    let k = choose|k: int|
                                        0 <= k < h && hits@.take(h as int)[k] == rows@[j];
                                    assert(grown[k] == rows@[j]);
                                }
                                if rows@[j] == row {
                                    assert(grown[h as int] == row);
                                }
                            }
                        }
                    }
                    h += 1;
                }
                assert(hits@.take(h as int) =~= hits@);
                assert forall|i: int| 0 <= i < rows@.len() implies hits@.contains(rows@[i])
                    == level.holds(artifact.ordinal, rows@[i]) by {
                    assert(hits@.to_set().contains(rows@[i]) == bits(shared).contains(rows@[i]));
                    assert(rows@.to_set().contains(rows@[i]));
                }
            }
        }
        proof {
            assert forall|i: int| 0 <= i < rows@.len() implies highest(
                with_served(before[i], *level, s + 1, rows@[i]),
                #[trigger] best@[i],
            ) by {
                let row = rows@[i];
                let now = with_served(before[i], *level, s + 1, row);
                assert forall|r: Rank| now.contains(r) == (prior[i].contains(r) || (level.holds(
                    artifact.ordinal,
                    row,
                ) && r == rank)) by {
                    if prior[i].contains(r) && !before[i].contains(r) {
                        let k = choose|k: int|
                            0 <= k < s && level.holds((#[trigger] level.served@[k]).ordinal, row)
                                && r == rank_at(level.level, level.served@, k);
                        assert(k < s + 1 && level.holds(level.served@[k].ordinal, row));
                    }
                    if level.holds(artifact.ordinal, row) && r == rank {
                        assert(level.holds(level.served@[s as int].ordinal, row));
                    }
                }
                if level.holds(artifact.ordinal, row) {
                    assert(now =~= prior[i].insert(rank));
                } else {
                    assert(now =~= prior[i]);
                }
            }
        }
        s += 1;
    }
    proof {
        assert forall|i: int| 0 <= i < rows@.len() implies highest(
            before[i].union(level.candidates(rows@[i])),
            #[trigger] best@[i],
        ) by {
            assert(with_served(before[i], *level, s as int, rows@[i]) =~= before[i].union(
                level.candidates(rows@[i]),
            ));
        }
    }
}

/// The ranks a row had before, and those its first `n` labels reach.
spec fn with_labels(before: Set<Rank>, level: ServedLevel, labels: Seq<u32>, n: int) -> Set<Rank> {
    Set::new(
        |rank: Rank|
            before.contains(rank) || exists|j: int|
                0 <= j < n && level.lineage.served_above(
                    level.level,
                    level.served@,
                    #[trigger] labels[j],
                ).contains(rank),
    )
}

/// A row-major level: each row's labels, and the served ancestors of each.
fn by_label(
    rows: &Vec<u32>,
    level: &ServedLevel,
    labels: &Vec<Vec<u32>>,
    best: &mut Vec<Option<Rank>>,
    Ghost(before): Ghost<Seq<Set<Rank>>>,
)
    requires
        level.wf(),
        level.rows == LevelRows::RowMajor(*labels),
        old(best)@.len() == rows@.len() == before.len(),
        forall|i: int| 0 <= i < rows@.len() ==> highest(before[i], #[trigger] old(best)@[i]),
    ensures
        final(best)@.len() == rows@.len(),
        forall|i: int|
            0 <= i < rows@.len() ==> highest(
                before[i].union(level.candidates(rows@[i])),
                #[trigger] final(best)@[i],
            ),
{
    let mut i: usize = 0;
    while i < rows.len()
        invariant
            i <= rows@.len(),
            level.wf(),
            level.rows == LevelRows::RowMajor(*labels),
            best@.len() == rows@.len() == before.len(),
            forall|k: int|
                0 <= k < rows@.len() ==> highest(
                    if k < i {
                        before[k].union(level.candidates(rows@[k]))
                    } else {
                        before[k]
                    },
                    #[trigger] best@[k],
                ),
        decreases rows@.len() - i,
    {
        let row: u32 = rows[i];
        let ghost earlier = best@;
        assert(highest(before[i as int], best@[i as int]));
        if (row as usize) < labels.len() {
            let own = &labels[row as usize];
            let mut held: Option<Rank> = best[i];
            let mut j: usize = 0;
            assert(with_labels(before[i as int], *level, own@, 0) =~= before[i as int]);
            while j < own.len()
                invariant
                    i < rows@.len() == before.len(),
                    j <= own@.len(),
                    level.wf(),
                    highest(with_labels(before[i as int], *level, own@, j as int), held),
                decreases own@.len() - j,
            {
                let found = level.lineage.select_ancestor(own[j], level.level, &level.served);
                let ghost these = level.lineage.served_above(
                    level.level,
                    level.served@,
                    own@[j as int],
                );
                held =
                higher(
                    held,
                    found,
                    Ghost(with_labels(before[i as int], *level, own@, j as int)),
                    Ghost(these),
                );
                proof {
                    let was = with_labels(before[i as int], *level, own@, j as int);
                    let now = with_labels(before[i as int], *level, own@, j + 1);
                    assert forall|r: Rank| now.contains(r) == was.union(these).contains(r) by {
                        if was.contains(r) && !before[i as int].contains(r) {
                            let k = choose|k: int|
                                0 <= k < j && level.lineage.served_above(
                                    level.level,
                                    level.served@,
                                    #[trigger] own@[k],
                                ).contains(r);
                            assert(0 <= k < j + 1 && level.lineage.served_above(
                                level.level,
                                level.served@,
                                own@[k],
                            ).contains(r));
                        }
                        if these.contains(r) {
                            assert(level.lineage.served_above(
                                level.level,
                                level.served@,
                                own@[j as int],
                            ).contains(r));
                        }
                    }
                    assert(now =~= was.union(these));
                }
                j += 1;
            }
            best.set(i, held);
            proof {
                let now = with_labels(before[i as int], *level, own@, j as int);
                let want = before[i as int].union(level.candidates(row));
                assert forall|r: Rank| now.contains(r) == want.contains(r) by {
                    if now.contains(r) && !before[i as int].contains(r) {
                        let k = choose|k: int|
                            0 <= k < j && level.lineage.served_above(
                                level.level,
                                level.served@,
                                #[trigger] own@[k],
                            ).contains(r);
                        let m = choose|m: int|
                            0 <= m < level.served@.len() && level.lineage.reaches(
                                own@[k],
                                (#[trigger] level.served@[m]).ordinal,
                            ) && r == rank_at(level.level, level.served@, m);
                        assert(own@ == labels@[row as int]@);
                        assert(level.lineage.reaches(
                            labels@[row as int]@[k],
                            level.served@[m].ordinal,
                        ));
                        assert(0 <= k < labels@[row as int]@.len());
                        assert(row < labels@.len());
                        assert(level.rows == LevelRows::RowMajor(*labels));
                        assert(level.holds(level.served@[m].ordinal, row));
                    }
                    if level.candidates(row).contains(r) {
                        let m = choose|m: int|
                            0 <= m < level.served@.len() && level.holds(
                                (#[trigger] level.served@[m]).ordinal,
                                row,
                            ) && r == rank_at(level.level, level.served@, m);
                        let k = choose|k: int|
                            0 <= k < labels@[row as int]@.len() && level.lineage.reaches(
                                #[trigger] labels@[row as int]@[k],
                                level.served@[m].ordinal,
                            );
                        assert(own@[k] == labels@[row as int]@[k]);
                        assert(level.lineage.reaches(own@[k], level.served@[m].ordinal));
                        assert(level.lineage.served_above(
                            level.level,
                            level.served@,
                            own@[k],
                        ).contains(r));
                    }
                }
                assert(now =~= want);
            }
        } else {
            assert(level.candidates(row) =~= Set::empty()) by {
                assert forall|r: Rank| !level.candidates(row).contains(r) by {
                    if level.candidates(row).contains(r) {
                        let m = choose|m: int|
                            0 <= m < level.served@.len() && level.holds(
                                (#[trigger] level.served@[m]).ordinal,
                                row,
                            ) && r == rank_at(level.level, level.served@, m);
                        assert(level.holds(level.served@[m].ordinal, row));
                    }
                }
            }
            assert(before[i as int].union(level.candidates(row)) =~= before[i as int]);
        }
        proof {
            assert forall|k: int| 0 <= k < rows@.len() implies highest(
                if k < i + 1 {
                    before[k].union(level.candidates(rows@[k]))
                } else {
                    before[k]
                },
                #[trigger] best@[k],
            ) by {
                assert(highest(
                    if k < i {
                        before[k].union(level.candidates(rows@[k]))
                    } else {
                        before[k]
                    },
                    earlier[k],
                ));
            }
        }
        i += 1;
    }
}

/// The deepest served artifact of a layer for each row.
fn resolve_layer(rows: &Vec<u32>, within: &Bitmap, layer: &ServedLayer) -> (ids: Vec<Option<u64>>)
    requires
        ascending(rows@),
        bits(*within) == rows@.to_set(),
        layer.wf(),
    ensures
        ids@ == rows@.map_values(|row: u32| deepest(*layer, row)),
{
    let mut best: Vec<Option<Rank>> = Vec::new();
    let total: usize = rows.len();
    while best.len() < total
        invariant
            total == rows@.len(),
            best@.len() <= rows@.len(),
            forall|i: int| 0 <= i < best@.len() ==> (#[trigger] best@[i]) is None,
        decreases total - best@.len(),
    {
        best.push(None);
    }
    let mut l: usize = 0;
    proof {
        assert forall|i: int| 0 <= i < rows@.len() implies highest(
            layer.candidates_before(0, rows@[i]),
            #[trigger] best@[i],
        ) by {
            assert(layer.candidates_before(0, rows@[i]) =~= Set::empty());
        }
    }
    while l < layer.levels.len()
        invariant
            l <= layer.levels@.len(),
            layer.wf(),
            ascending(rows@),
            bits(*within) == rows@.to_set(),
            best@.len() == rows@.len(),
            forall|i: int|
                0 <= i < rows@.len() ==> highest(
                    layer.candidates_before(l as int, rows@[i]),
                    #[trigger] best@[i],
                ),
        decreases layer.levels@.len() - l,
    {
        let level = &layer.levels[l];
        assert(layer.levels@[l as int].wf());
        let ghost before = Seq::new(
            rows@.len(),
            |i: int| layer.candidates_before(l as int, rows@[i]),
        );
        if level.served.len() > 0 {
            match &level.rows {
                LevelRows::RowMajor(labels) => by_label(
                    rows,
                    level,
                    labels,
                    &mut best,
                    Ghost(before),
                ),
                LevelRows::ArtifactMajor(members) => by_artifact(
                    rows,
                    within,
                    level,
                    members,
                    &mut best,
                    Ghost(before),
                ),
            }
        } else {
            assert forall|i: int| 0 <= i < rows@.len() implies #[trigger] before[i].union(
                level.candidates(rows@[i]),
            ) == before[i] by {
                assert(before[i].union(level.candidates(rows@[i])) =~= before[i]);
            }
            assert forall|i: int| 0 <= i < rows@.len() implies highest(
                before[i].union(level.candidates(rows@[i])),
                #[trigger] best@[i],
            ) by {
                assert(before[i].union(level.candidates(rows@[i])) == before[i]);
            }
        }
        proof {
            assert forall|i: int| 0 <= i < rows@.len() implies highest(
                layer.candidates_before(l + 1, rows@[i]),
                #[trigger] best@[i],
            ) by {
                let row = rows@[i];
                let now = layer.candidates_before(l + 1, row);
                let was = before[i].union(level.candidates(row));
                assert forall|r: Rank| now.contains(r) == was.contains(r) by {
                    if before[i].contains(r) {
                        let k = choose|k: int|
                            0 <= k < l && (#[trigger] layer.levels@[k]).candidates(row).contains(r);
                        assert(0 <= k < l + 1 && layer.levels@[k].candidates(row).contains(r));
                    }
                    if level.candidates(row).contains(r) {
                        assert(layer.levels@[l as int].candidates(row).contains(r));
                    }
                }
                assert(now =~= was);
            }
        }
        l += 1;
    }
    let mut ids: Vec<Option<u64>> = Vec::new();
    let mut i: usize = 0;
    while i < best.len()
        invariant
            i <= best@.len() == rows@.len(),
            ids@.len() == i,
            l == layer.levels@.len(),
            forall|k: int|
                0 <= k < rows@.len() ==> highest(
                    layer.candidates_before(l as int, rows@[k]),
                    #[trigger] best@[k],
                ),
            forall|k: int| 0 <= k < i ==> ids@[k] == deepest(*layer, #[trigger] rows@[k]),
        decreases best@.len() - i,
    {
        proof {
            assert(highest(layer.candidates(rows@[i as int]), best@[i as int]));
            lemma_best(layer.candidates(rows@[i as int]), best@[i as int]);
        }
        ids.push(
            match best[i] {
                Some(rank) => Some(rank.id),
                None => None,
            },
        );
        i += 1;
    }
    assert(ids@ =~= rows@.map_values(|row: u32| deepest(*layer, row)));
    ids
}

/// One served layer's column, aligned to the resolver's rows.
#[derive(Debug)]
pub struct LayerColumn {
    pub layer: String,
    pub ids: Vec<Option<u64>>,
}

/// The resolved column for every served layer, aligned to one ascending row list.
#[derive(Debug)]
pub struct Resolved {
    /// The response's rows, ascending and distinct.
    pub rows: Vec<u32>,
    /// Per served layer, per row: the deepest served artifact's identifier.
    pub columns: Vec<LayerColumn>,
}

/// The layers that the response serves artifacts of, in their order.
pub open spec fn served_layers(layers: Seq<ServedLayer>) -> Seq<ServedLayer> {
    layers.filter(|layer: ServedLayer| layer.serves())
}

/// Whether a column is a layer's over a list of rows.
pub open spec fn column_of(name: Seq<char>, ids: Seq<Option<u64>>, layer: ServedLayer, rows: Seq<
    u32,
>) -> bool {
    &&& name == layer.name@
    &&& ids == rows.map_values(|row: u32| deepest(layer, row))
}

impl Resolved {
    /// The rows ascend, and each column has a place for every row.
    pub open spec fn wf(&self) -> bool {
        &&& ascending(self.rows@)
        &&& forall|c: int|
            0 <= c < self.columns@.len() ==> (#[trigger] self.columns@[c]).ids@.len()
                == self.rows@.len()
    }

    /// Whether this resolves rows against layers: a column for each layer with a served artifact.
    pub open spec fn resolves(&self, rows: Seq<u32>, layers: Seq<ServedLayer>) -> bool {
        &&& self.wf()
        &&& self.rows@.to_set() == rows.to_set()
        &&& self.columns@.len() == served_layers(layers).len()
        &&& forall|c: int|
            0 <= c < self.columns@.len() ==> column_of(
                (#[trigger] self.columns@[c]).layer@,
                self.columns@[c].ids@,
                served_layers(layers)[c],
                self.rows@,
            )
    }

    /// What a column answers for a row: null where the resolver was not given it.
    pub open spec fn answer(&self, c: int, row: u32) -> Option<u64> {
        if self.rows@.contains(row) {
            self.columns@[c].ids@[self.rows@.index_of(row)]
        } else {
            None
        }
    }

    /// Resolve a response's rows, in any order, against its served layers.
    pub fn new(rows: Vec<u32>, layers: &Vec<ServedLayer>) -> (resolved: Resolved)
        requires
            forall|i: int| 0 <= i < layers@.len() ==> (#[trigger] layers@[i]).wf(),
        ensures
            resolved.resolves(rows@, layers@),
    {
        let ghost given = rows@;
        let rows = sorted_distinct_u32(rows);
        let within = bitmap::of(rows.as_slice());
        let mut columns: Vec<LayerColumn> = Vec::new();
        let ghost serves = |layer: ServedLayer| layer.serves();
        let mut i: usize = 0;
        proof {
            lemma_filter_empty(layers@, serves);
        }
        while i < layers.len()
            invariant
                i <= layers@.len(),
                forall|k: int| 0 <= k < layers@.len() ==> (#[trigger] layers@[k]).wf(),
                ascending(rows@),
                bits(within) == rows@.to_set(),
                serves == (|layer: ServedLayer| layer.serves()),
                columns@.len() == layers@.take(i as int).filter(serves).len(),
                forall|c: int|
                    0 <= c < columns@.len() ==> column_of(
                        (#[trigger] columns@[c]).layer@,
                        columns@[c].ids@,
                        layers@.take(i as int).filter(serves)[c],
                        rows@,
                    ),
            decreases layers@.len() - i,
        {
            proof {
                lemma_filter_step(layers@, i as int, serves);
            }
            if serves_any(&layers[i]) {
                let ids = resolve_layer(&rows, &within, &layers[i]);
                columns.push(LayerColumn { layer: layers[i].name.clone(), ids });
            }
            i += 1;
        }
        proof {
            assert(layers@.take(i as int) =~= layers@);
        }
        Resolved { rows, columns }
    }

    /// Whether the response serves artifacts of no layer.
    pub fn is_empty(&self) -> (yes: bool)
        ensures
            yes == (self.columns@.len() == 0),
    {
        self.columns.len() == 0
    }

    /// The membership columns for a chunk of rows, in the resolver's layer order.
    pub fn columns_for(&self, chunk_rows: &[u32]) -> (columns: Vec<MembershipColumn>)
        requires
            self.wf(),
        ensures
            columns@.len() == self.columns@.len(),
            forall|c: int|
                0 <= c < columns@.len() ==> (#[trigger] columns@[c]).layer@
                    == self.columns@[c].layer@ && columns@[c].ids@ == chunk_rows@.map_values(
                    |row: u32| self.answer(c, row),
                ),
    {
        let mut columns: Vec<MembershipColumn> = Vec::new();
        let mut c: usize = 0;
        while c < self.columns.len()
            invariant
                c <= self.columns@.len(),
                self.wf(),
                columns@.len() == c,
                forall|k: int|
                    0 <= k < c ==> (#[trigger] columns@[k]).layer@ == self.columns@[k].layer@
                        && columns@[k].ids@ == chunk_rows@.map_values(
                        |row: u32| self.answer(k, row),
                    ),
            decreases self.columns@.len() - c,
        {
            let column = &self.columns[c];
            let mut ids: Vec<Option<u64>> = Vec::new();
            let mut i: usize = 0;
            while i < chunk_rows.len()
                invariant
                    i <= chunk_rows@.len(),
                    c < self.columns@.len(),
                    *column == self.columns@[c as int],
                    self.wf(),
                    ids@.len() == i,
                    forall|k: int|
                        0 <= k < i ==> ids@[k] == self.answer(c as int, #[trigger] chunk_rows@[k]),
                decreases chunk_rows@.len() - i,
            {
                let row: u32 = chunk_rows[i];
                match index_of(&self.rows, row) {
                    Some(at) => {
                        proof {
                            let k = self.rows@.index_of(row);
                            assert(self.rows@[at as int] == row);
                            if k < at {
                                assert(self.rows@[k] < self.rows@[at as int]);
                            } else if k > at {
                                assert(self.rows@[at as int] < self.rows@[k]);
                            }
                        }
                        ids.push(column.ids[at]);
                    },
                    None => {
                        ids.push(None);
                    },
                }
                i += 1;
            }
            assert(ids@ =~= chunk_rows@.map_values(|row: u32| self.answer(c as int, row)));
            columns.push(MembershipColumn { layer: column.layer.clone(), ids });
            c += 1;
        }
        columns
    }

    /// Empty columns in the resolver's layer order: the seed for a chunk with no points yet.
    pub fn empty_columns(&self) -> (columns: Vec<MembershipColumn>)
        ensures
            columns@.len() == self.columns@.len(),
            forall|c: int|
                0 <= c < columns@.len() ==> (#[trigger] columns@[c]).layer@
                    == self.columns@[c].layer@ && columns@[c].ids@.len() == 0,
    {
        let mut columns: Vec<MembershipColumn> = Vec::new();
        let mut c: usize = 0;
        while c < self.columns.len()
            invariant
                c <= self.columns@.len(),
                columns@.len() == c,
                forall|k: int|
                    0 <= k < c ==> (#[trigger] columns@[k]).layer@ == self.columns@[k].layer@
                        && columns@[k].ids@.len() == 0,
            decreases self.columns@.len() - c,
        {
            columns.push(
                MembershipColumn { layer: self.columns[c].layer.clone(), ids: Vec::new() },
            );
            c += 1;
        }
        columns
    }
}

/// Whether the response serves an artifact of a layer.
fn serves_any(layer: &ServedLayer) -> (yes: bool)
    ensures
        yes == layer.serves(),
{
    let mut l: usize = 0;
    while l < layer.levels.len()
        invariant
            l <= layer.levels@.len(),
            forall|k: int| 0 <= k < l ==> (#[trigger] layer.levels@[k]).served@.len() == 0,
        decreases layer.levels@.len() - l,
    {
        if layer.levels[l].served.len() > 0 {
            assert(layer.levels@[l as int].served@.len() > 0);
            return true;
        }
        l += 1;
    }
    false
}

/// A column names, for every row the resolver was given, the deepest served artifact that holds it,
/// and nothing for any other row.
pub proof fn law_a_column_names_the_deepest_served_artifact(
    resolved: Resolved,
    rows: Seq<u32>,
    layers: Seq<ServedLayer>,
    c: int,
    row: u32,
)
    requires
        resolved.resolves(rows, layers),
        0 <= c < resolved.columns@.len(),
    ensures
        rows.contains(row) ==> resolved.answer(c, row) == deepest(served_layers(layers)[c], row),
        !rows.contains(row) ==> resolved.answer(c, row) is None,
{
    assert(rows.to_set().contains(row) == resolved.rows@.to_set().contains(row));
    assert(column_of(
        resolved.columns@[c].layer@,
        resolved.columns@[c].ids@,
        served_layers(layers)[c],
        resolved.rows@,
    ));
}

/// There is one column for each layer that serves an artifact on some level, in the layers' order
/// and under the layer's name.
pub proof fn law_a_column_stands_for_each_layer_that_serves(
    resolved: Resolved,
    rows: Seq<u32>,
    layers: Seq<ServedLayer>,
) -> (at: Seq<int>)
    requires
        resolved.resolves(rows, layers),
    ensures
        at.len() == resolved.columns@.len() == served_layers(layers).len(),
        forall|c: int|
            0 <= c < at.len() ==> 0 <= #[trigger] at[c] < layers.len() && served_layers(layers)[c]
                == layers[at[c]] && resolved.columns@[c].layer@ == layers[at[c]].name@,
        forall|c: int, d: int| 0 <= c < d < at.len() ==> at[c] < at[d],
        forall|i: int|
            0 <= i < layers.len() ==> (at.contains(i) <==> exists|l: int|
                0 <= l < (#[trigger] layers[i]).levels@.len() && (
                #[trigger] layers[i].levels@[l]).served@.len() > 0),
{
    let serves = |layer: ServedLayer| layer.serves();
    let at = lemma_filter_positions(layers, serves);
    assert forall|c: int| 0 <= c < at.len() implies 0 <= #[trigger] at[c] < layers.len()
        && served_layers(layers)[c] == layers[at[c]] && resolved.columns@[c].layer@
        == layers[at[c]].name@ by {
        assert(column_of(
            resolved.columns@[c].layer@,
            resolved.columns@[c].ids@,
            served_layers(layers)[c],
            resolved.rows@,
        ));
    }
    assert forall|i: int| 0 <= i < layers.len() implies (at.contains(i) <==> exists|l: int|
        0 <= l < (#[trigger] layers[i]).levels@.len() && (
        #[trigger] layers[i].levels@[l]).served@.len() > 0) by {
        assert(serves(layers[i]) == layers[i].serves());
    }
    at
}

/// The highest of two sets of ranks that each have one.
proof fn lemma_highest_of_both(a: Set<Rank>, x: Option<Rank>, b: Set<Rank>, y: Option<Rank>) -> (best:
    Option<Rank>)
    requires
        highest(a, x),
        highest(b, y),
    ensures
        highest(a.union(b), best),
{
    if x is None {
        assert(a.union(b) =~= b);
        y
    } else if y is None {
        assert(a.union(b) =~= a);
        x
    } else if y->0.above(x->0) {
        y
    } else {
        x
    }
}

/// The first `n` served artifacts of a level that hold a row have a highest rank, where there are
/// any.
proof fn lemma_level_has_a_highest(level: ServedLevel, n: int, row: u32) -> (best: Option<Rank>)
    requires
        0 <= n <= level.served@.len(),
    ensures
        highest(with_served(Set::empty(), level, n, row), best),
    decreases n,
{
    let all = with_served(Set::<Rank>::empty(), level, n, row);
    if n == 0 {
        assert(all =~= Set::empty());
        None
    } else {
        let before = lemma_level_has_a_highest(level, n - 1, row);
        let rest = with_served(Set::<Rank>::empty(), level, n - 1, row);
        if level.holds(level.served@[n - 1].ordinal, row) {
            let rank = rank_at(level.level, level.served@, n - 1);
            let own = set![rank];
            let best = lemma_highest_of_both(rest, before, own, Some(rank));
            assert forall|r: Rank| all.contains(r) == rest.union(own).contains(r) by {
                if own.contains(r) {
                    assert(level.holds(level.served@[n - 1].ordinal, row));
                }
            }
            assert(all =~= rest.union(own));
            best
        } else {
            assert(all =~= rest);
            before
        }
    }
}

/// The served artifacts of a layer's first `n` levels that hold a row have a highest rank, where
/// there are any.
proof fn lemma_layer_has_a_highest(layer: ServedLayer, n: int, row: u32) -> (best: Option<Rank>)
    requires
        0 <= n <= layer.levels@.len(),
    ensures
        highest(layer.candidates_before(n, row), best),
    decreases n,
{
    let all = layer.candidates_before(n, row);
    if n == 0 {
        assert(all =~= Set::empty());
        None
    } else {
        let before = lemma_layer_has_a_highest(layer, n - 1, row);
        let rest = layer.candidates_before(n - 1, row);
        let level = layer.levels@[n - 1];
        let own = level.candidates(row);
        let top = lemma_level_has_a_highest(level, level.served@.len() as int, row);
        assert(with_served(Set::empty(), level, level.served@.len() as int, row) =~= own);
        let best = lemma_highest_of_both(rest, before, own, top);
        assert forall|r: Rank| all.contains(r) == rest.union(own).contains(r) by {
            if own.contains(r) {
                assert(layer.levels@[n - 1].candidates(row).contains(r));
            }
        }
        assert(all =~= rest.union(own));
        best
    }
}

/// What a column answers for a row is the identifier of a served artifact that holds it, and no
/// served artifact of the layer that holds the row is of a deeper level, nor of the same level and
/// a higher rung, nor of the same level and rung with a smaller identifier. Nothing is answered
/// only where no served artifact of the layer holds the row.
pub proof fn law_a_row_is_answered_by_the_deepest_that_holds_it(
    resolved: Resolved,
    rows: Seq<u32>,
    layers: Seq<ServedLayer>,
    c: int,
    row: u32,
) -> (at: (int, int))
    requires
        resolved.resolves(rows, layers),
        0 <= c < resolved.columns@.len(),
        rows.contains(row),
    ensures
        ({
            let levels = served_layers(layers)[c].levels@;
            let answer = resolved.answer(c, row);
            let (l, k) = at;
            &&& answer matches Some(id) ==> {
                &&& 0 <= l < levels.len()
                &&& 0 <= k < levels[l].served@.len()
                &&& levels[l].holds(levels[l].served@[k].ordinal, row)
                &&& levels[l].served@[k].id == id
                &&& forall|m: int, j: int|
                    0 <= m < levels.len() && 0 <= j < levels[m].served@.len() && levels[m].holds(
                        (#[trigger] levels[m].served@[j]).ordinal,
                        row,
                    ) ==> {
                        ||| levels[m].level < levels[l].level
                        ||| levels[m].level == levels[l].level && levels[m].served@[j].rung
                            < levels[l].served@[k].rung
                        ||| levels[m].level == levels[l].level && levels[m].served@[j].rung
                            == levels[l].served@[k].rung && levels[m].served@[j].id >= id
                    }
            }
            &&& answer is None ==> forall|m: int, j: int|
                0 <= m < levels.len() && 0 <= j < levels[m].served@.len() ==> !levels[m].holds(
                    (#[trigger] levels[m].served@[j]).ordinal,
                    row,
                )
        }),
{
    let layer = served_layers(layers)[c];
    let levels = layer.levels@;
    law_a_column_names_the_deepest_served_artifact(resolved, rows, layers, c, row);
    let best = lemma_layer_has_a_highest(layer, levels.len() as int, row);
    lemma_best(layer.candidates(row), best);
    assert forall|m: int, j: int|
        0 <= m < levels.len() && 0 <= j < levels[m].served@.len() && levels[m].holds(
            (#[trigger] levels[m].served@[j]).ordinal,
            row,
        ) implies layer.candidates(row).contains(
        rank_at(levels[m].level, levels[m].served@, j),
    ) by {
        assert(levels[m].candidates(row).contains(rank_at(levels[m].level, levels[m].served@, j)));
    }
    if best is Some {
        let rank = best->0;
        let l = choose|l: int|
            0 <= l < levels.len() && (#[trigger] layer.levels@[l]).candidates(row).contains(rank);
        let level = levels[l];
        let k = choose|k: int|
            0 <= k < level.served@.len() && level.holds((#[trigger] level.served@[k]).ordinal, row)
                && rank == rank_at(level.level, level.served@, k);
        (l, k)
    } else {
        (0, 0)
    }
}

/// An artifact of a level whose members are listed holds exactly the rows listed for it. Of a level
/// whose rows are labelled, it holds the rows that carry its label and those that an artifact holds
/// which names it as a parent, and no others.
pub proof fn law_an_artifact_holds_its_own_rows_and_its_childrens(
    level: ServedLevel,
    ordinal: u32,
    row: u32,
)
    ensures
        level.rows matches LevelRows::ArtifactMajor(members) ==> (level.holds(ordinal, row)
            <==> ordinal < members@.len() && members@[ordinal as int] is Some && bits(
            members@[ordinal as int]->0,
        ).contains(row)),
        level.rows matches LevelRows::RowMajor(labels) ==> {
            &&& row < labels@.len() && labels@[row as int]@.contains(ordinal) ==> level.holds(
                ordinal,
                row,
            )
            &&& forall|child: u32, p: int|
                level.holds(child, row) && child < level.lineage.parents@.len() && 0 <= p
                    < level.lineage.parents@[child as int]@.len() ==> level.holds(
                    #[trigger] level.lineage.parents@[child as int]@[p],
                    row,
                )
            &&& level.holds(ordinal, row) ==> row < labels@.len() && (labels@[row as int]@.contains(
                ordinal,
            ) || exists|child: u32, p: int|
                level.holds(child, row) && child < level.lineage.parents@.len() && 0 <= p
                    < level.lineage.parents@[child as int]@.len()
                    && #[trigger] level.lineage.parents@[child as int]@[p] == ordinal)
        },
{
    if let LevelRows::RowMajor(labels) = level.rows {
        if row < labels@.len() {
            let own = labels@[row as int]@;
            if own.contains(ordinal) {
                let j = choose|j: int| 0 <= j < own.len() && own[j] == ordinal;
                law_an_artifact_reaches_its_ancestors(level.lineage, own[j], ordinal);
                assert(level.lineage.reaches(labels@[row as int]@[j], ordinal));
            }
            assert forall|child: u32, p: int|
                level.holds(child, row) && child < level.lineage.parents@.len() && 0 <= p
                    < level.lineage.parents@[child as int]@.len() implies level.holds(
                #[trigger] level.lineage.parents@[child as int]@[p],
                row,
            ) by {
                let j = choose|j: int|
                    0 <= j < own.len() && level.lineage.reaches(
                        #[trigger] labels@[row as int]@[j],
                        child,
                    );
                law_an_artifact_reaches_its_ancestors(level.lineage, own[j], child);
                assert(level.lineage.reaches(
                    labels@[row as int]@[j],
                    level.lineage.parents@[child as int]@[p],
                ));
            }
            if level.holds(ordinal, row) {
                let j = choose|j: int|
                    0 <= j < own.len() && level.lineage.reaches(
                        #[trigger] labels@[row as int]@[j],
                        ordinal,
                    );
                law_an_artifact_reaches_its_ancestors(level.lineage, own[j], ordinal);
                if own[j] != ordinal {
                    let (child, p) = choose|child: u32, p: int|
                        level.lineage.reaches(own[j], child) && child
                            < level.lineage.parents@.len() && 0 <= p
                            < level.lineage.parents@[child as int]@.len()
                            && #[trigger] level.lineage.parents@[child as int]@[p] == ordinal;
                    assert(level.lineage.reaches(labels@[row as int]@[j], child));
                    assert(level.holds(child, row));
                }
            }
        }
    }
}

} // verus!
