//! The lineage of a level's artifacts: which artifacts each one names as its parents.

use croaring::Bitmap;
use vstd::prelude::*;

use crate::bitmap;
use crate::bitmap::{bits, lemma_finite, lemma_len_bound};

verus! {

/// The rank a candidate wins by: the finest level first, then the deepest rung, then the lowest
/// identifier.
#[derive(Clone, Copy, Debug, PartialEq, Eq, Structural)]
pub struct Rank {
    pub level: u32,
    pub rung: u32,
    pub id: u64,
}

impl Rank {
    /// Whether a rank is above another.
    pub open spec fn above(self, other: Rank) -> bool {
        ||| self.level > other.level
        ||| self.level == other.level && self.rung > other.rung
        ||| self.level == other.level && self.rung == other.rung && self.id < other.id
    }

    /// Whether a rank is above another.
    pub fn outranks(&self, other: &Rank) -> (yes: bool)
        ensures
            yes == self.above(*other),
    {
        self.level > other.level || self.level == other.level && (self.rung > other.rung
            || self.rung == other.rung && self.id < other.id)
    }
}

/// Whether `best` is the highest of a set of ranks, which is empty where there is none.
pub open spec fn highest(ranks: Set<Rank>, best: Option<Rank>) -> bool {
    match best {
        None => ranks == Set::<Rank>::empty(),
        Some(rank) => ranks.contains(rank) && forall|other: Rank| #[trigger]
            ranks.contains(other) ==> !other.above(rank),
    }
}

/// A set of ranks has one highest.
pub proof fn lemma_one_highest(ranks: Set<Rank>, a: Option<Rank>, b: Option<Rank>)
    requires
        highest(ranks, a),
        highest(ranks, b),
    ensures
        a == b,
{
    if a is Some {
        assert(ranks.contains(a->0));
    }
    if b is Some {
        assert(ranks.contains(b->0));
    }
}

/// The higher of two bests is the highest of both sets.
pub(crate) fn higher(
    held: Option<Rank>,
    other: Option<Rank>,
    Ghost(ranks): Ghost<Set<Rank>>,
    Ghost(others): Ghost<Set<Rank>>,
) -> (best: Option<Rank>)
    requires
        highest(ranks, held),
        highest(others, other),
    ensures
        highest(ranks.union(others), best),
{
    match other {
        None => {
            assert(ranks.union(others) =~= ranks);
            held
        },
        Some(rank) => match held {
            None => {
                assert(ranks.union(others) =~= others);
                other
            },
            Some(before) => if rank.outranks(&before) {
                other
            } else {
                held
            },
        },
    }
}

/// An artifact of a level that a response serves: its identifier and its rung in the response.
#[derive(Clone, Copy, Debug, PartialEq, Eq, Structural)]
pub struct ServedArtifact {
    pub ordinal: u32,
    pub id: u64,
    pub rung: u32,
}

/// Each artifact stands in the list once.
pub open spec fn served_once(served: Seq<ServedArtifact>) -> bool {
    forall|i: int, j: int|
        0 <= i < j < served.len() ==> (#[trigger] served[i]).ordinal != (
        #[trigger] served[j]).ordinal
}

/// The rank of the artifact that stands at `k`.
pub open spec fn rank_at(level: u32, served: Seq<ServedArtifact>, k: int) -> Rank {
    Rank { level, rung: served[k].rung, id: served[k].id }
}

/// Whether a rank is that of the artifact with this ordinal.
pub open spec fn ranks_as(
    level: u32,
    served: Seq<ServedArtifact>,
    ordinal: u32,
    rank: Rank,
) -> bool {
    exists|k: int|
        0 <= k < served.len() && (#[trigger] served[k]).ordinal == ordinal && rank == rank_at(
            level,
            served,
            k,
        )
}

/// The rank of the artifact with this ordinal, where it is served.
pub fn rank_of(level: u32, served: &Vec<ServedArtifact>, ordinal: u32) -> (rank: Option<Rank>)
    requires
        served_once(served@),
    ensures
        rank is None <==> forall|k: int|
            0 <= k < served@.len() ==> (#[trigger] served@[k]).ordinal != ordinal,
        rank matches Some(rank) ==> forall|other: Rank| #[trigger]
            ranks_as(level, served@, ordinal, other) <==> other == rank,
{
    let mut k: usize = 0;
    while k < served.len()
        invariant
            k <= served@.len(),
            served_once(served@),
            forall|j: int| 0 <= j < k ==> (#[trigger] served@[j]).ordinal != ordinal,
        decreases served@.len() - k,
    {
        if served[k].ordinal == ordinal {
            let rank = Rank { level, rung: served[k].rung, id: served[k].id };
            assert(rank == rank_at(level, served@, k as int) && served@[k as int].ordinal
                == ordinal);
            return Some(rank);
        }
        k += 1;
    }
    None
}

/// The artifacts of a level, each with the ones it names as its parents.
#[derive(Clone, Debug)]
pub struct Lineage {
    /// An artifact's parents, at its ordinal.
    pub parents: Vec<Vec<u32>>,
}

impl Lineage {
    /// The parents of an artifact.
    pub open spec fn ups(&self, ordinal: u32) -> Seq<u32> {
        if ordinal < self.parents@.len() {
            self.parents@[ordinal as int]@
        } else {
            Seq::empty()
        }
    }

    /// Whether a path climbs from each artifact to one of its parents.
    pub open spec fn climbs(&self, path: Seq<u32>) -> bool {
        forall|i: int|
            1 <= i < path.len() ==> self.ups(path[i - 1]).contains(#[trigger] path[i])
    }

    /// Whether an artifact is another or one of its ancestors, on any path.
    pub open spec fn reaches(&self, from: u32, to: u32) -> bool {
        exists|path: Seq<u32>| #[trigger]
            self.climbs(path) && path.len() > 0 && path[0] == from && path.last() == to
    }

    /// The ranks of the served artifacts among an artifact and its ancestors.
    pub open spec fn served_above(
        &self,
        level: u32,
        served: Seq<ServedArtifact>,
        leaf: u32,
    ) -> Set<Rank> {
        Set::new(
            |rank: Rank|
                exists|k: int|
                    0 <= k < served.len() && self.reaches(leaf, (#[trigger] served[k]).ordinal)
                        && rank == rank_at(level, served, k),
        )
    }

    /// The parents of an artifact; none where it is not of the level.
    pub fn parents_of(&self, ordinal: u32) -> (parents: &[u32])
        ensures
            parents@ == self.ups(ordinal),
    {
        if (ordinal as usize) < self.parents.len() {
            self.parents[ordinal as usize].as_slice()
        } else {
            let none: &[u32] = &[];
            assert(none@ =~= Seq::<u32>::empty());
            none
        }
    }

    proof fn lemma_reaches_self(&self, leaf: u32)
        ensures
            self.reaches(leaf, leaf),
    {
        assert(self.climbs(seq![leaf]));
    }

    proof fn lemma_reaches_up(&self, leaf: u32, at: u32, up: u32)
        requires
            self.reaches(leaf, at),
            self.ups(at).contains(up),
        ensures
            self.reaches(leaf, up),
    {
        let path = choose|path: Seq<u32>| #[trigger]
            self.climbs(path) && path.len() > 0 && path[0] == leaf && path.last() == at;
        let longer = path.push(up);
        assert forall|i: int| 1 <= i < longer.len() implies self.ups(longer[i - 1]).contains(
            #[trigger] longer[i],
        ) by {
            if i < path.len() {
                assert(longer[i] == path[i]);
            }
        }
        assert(self.climbs(longer));
    }

    /// A set closed upwards holds everything that its members reach.
    proof fn lemma_closed(&self, seen: Set<u32>, path: Seq<u32>, n: int)
        requires
            self.climbs(path),
            0 <= n < path.len(),
            seen.contains(path[0]),
            forall|x: u32, up: u32|
                seen.contains(x) && #[trigger] self.ups(x).contains(up) ==> seen.contains(up),
        ensures
            seen.contains(path[n]),
        decreases n,
    {
        if n > 0 {
            self.lemma_closed(seen, path, n - 1);
            assert(self.ups(path[n - 1]).contains(path[n]));
        }
    }

    /// The highest rank among the served artifacts that are `leaf` or its ancestors, over every
    /// path.
    pub fn select_ancestor(&self, leaf: u32, level: u32, served: &Vec<ServedArtifact>) -> (best:
        Option<Rank>)
        requires
            served_once(served@),
        ensures
            highest(self.served_above(level, served@, leaf), best),
    {
        let mut seen: Bitmap = bitmap::empty();
        let mut stack: Vec<u32> = Vec::new();
        stack.push(leaf);
        let mut best: Option<Rank> = None;
        let ghost mut ranks: Set<Rank> = Set::empty();
        proof {
            self.lemma_reaches_self(leaf);
            assert(stack@[0] == leaf);
        }
        while stack.len() > 0
            invariant
                served_once(served@),
                highest(ranks, best),
                forall|rank: Rank| #[trigger]
                    ranks.contains(rank) <==> exists|x: u32|
                        bits(seen).contains(x) && #[trigger] ranks_as(level, served@, x, rank),
                bits(seen).contains(leaf) || stack@.contains(leaf),
                forall|x: u32| #[trigger] bits(seen).contains(x) ==> self.reaches(leaf, x),
                forall|i: int| 0 <= i < stack@.len() ==> self.reaches(leaf, #[trigger] stack@[i]),
                forall|x: u32, up: u32|
                    bits(seen).contains(x) && #[trigger] self.ups(x).contains(up) ==> bits(
                        seen,
                    ).contains(up) || stack@.contains(up),
            decreases 0x1_0000_0000 - bits(seen).len(), stack@.len(),
        {
            let ghost before = stack@;
            let ghost seen_before = bits(seen);
            proof {
                lemma_len_bound(bits(seen));
                lemma_finite(bits(seen));
            }
            let at: u32 = stack.pop().unwrap();
            assert(before =~= stack@.push(at));
            assert(before.last() == at);
            assert forall|x: u32| before.contains(x) && x != at implies stack@.contains(x) by {
                let k = choose|k: int| 0 <= k < before.len() && before[k] == x;
                assert(stack@[k] == x);
            }
            if bitmap::contains(&seen, at) {
                continue;
            }
            assert(self.reaches(leaf, before[before.len() - 1]));
            bitmap::insert(&mut seen, at);
            proof {
                lemma_finite(seen_before);
                lemma_len_bound(bits(seen));
            }
            let found = rank_of(level, served, at);
            let ghost these: Set<Rank> = Set::new(|rank: Rank| ranks_as(level, served@, at, rank));
            proof {
                if found is None {
                    assert(these =~= Set::empty());
                } else {
                    assert(these.contains(found->0));
                }
            }
            best = higher(best, found, Ghost(ranks), Ghost(these));
            proof {
                let old_ranks = ranks;
                ranks = ranks.union(these);
                assert forall|rank: Rank| #[trigger] ranks.contains(rank) <==> exists|x: u32|
                    bits(seen).contains(x) && #[trigger] ranks_as(level, served@, x, rank) by {
                    if old_ranks.contains(rank) {
                        let x = choose|x: u32|
                            seen_before.contains(x) && #[trigger] ranks_as(level, served@, x, rank);
                        assert(bits(seen).contains(x) && ranks_as(level, served@, x, rank));
                    } else if these.contains(rank) {
                        assert(bits(seen).contains(at) && ranks_as(level, served@, at, rank));
                    }
                    if exists|x: u32|
                        bits(seen).contains(x) && #[trigger] ranks_as(level, served@, x, rank) {
                        let x = choose|x: u32|
                            bits(seen).contains(x) && #[trigger] ranks_as(level, served@, x, rank);
                        if x != at {
                            assert(seen_before.contains(x) && ranks_as(level, served@, x, rank));
                            assert(old_ranks.contains(rank));
                        }
                    }
                }
            }
            let ups = self.parents_of(at);
            let ghost popped = stack@;
            let mut i: usize = 0;
            while i < ups.len()
                invariant
                    i <= ups@.len(),
                    ups@ == self.ups(at),
                    self.reaches(leaf, at),
                    popped.len() + i == stack@.len(),
                    forall|k: int| 0 <= k < popped.len() ==> stack@[k] == popped[k],
                    forall|k: int| 0 <= k < i ==> stack@[popped.len() + k] == ups@[k],
                    forall|k: int|
                        0 <= k < stack@.len() ==> self.reaches(leaf, #[trigger] stack@[k]),
                decreases ups@.len() - i,
            {
                proof {
                    assert(self.ups(at).contains(ups@[i as int]));
                    self.lemma_reaches_up(leaf, at, ups@[i as int]);
                }
                stack.push(ups[i]);
                i += 1;
            }
            proof {
                assert forall|x: u32| popped.contains(x) implies stack@.contains(x) by {
                    let k = choose|k: int| 0 <= k < popped.len() && popped[k] == x;
                    assert(stack@[k] == x);
                }
                assert forall|x: u32, up: u32|
                    bits(seen).contains(x) && #[trigger] self.ups(x).contains(up) implies bits(
                    seen,
                ).contains(up) || stack@.contains(up) by {
                    if x == at {
                        let k = choose|k: int| 0 <= k < ups@.len() && ups@[k] == up;
                        assert(stack@[popped.len() + k] == up);
                    } else {
                        assert(seen_before.contains(up) || before.contains(up));
                    }
                }
            }
        }
        proof {
            assert(bits(seen).contains(leaf));
            assert forall|rank: Rank|
                self.served_above(level, served@, leaf).contains(rank) == ranks.contains(rank) by {
                if self.served_above(level, served@, leaf).contains(rank) {
                    let k = choose|k: int|
                        0 <= k < served@.len() && self.reaches(
                            leaf,
                            (#[trigger] served@[k]).ordinal,
                        ) && rank == rank_at(level, served@, k);
                    let to = served@[k].ordinal;
                    let path = choose|path: Seq<u32>| #[trigger]
                        self.climbs(path) && path.len() > 0 && path[0] == leaf && path.last() == to;
                    self.lemma_closed(bits(seen), path, path.len() - 1);
                    assert(ranks_as(level, served@, to, rank));
                }
                if ranks.contains(rank) {
                    let x = choose|x: u32|
                        bits(seen).contains(x) && #[trigger] ranks_as(level, served@, x, rank);
                    assert(self.reaches(leaf, x));
                }
            }
            assert(self.served_above(level, served@, leaf) =~= ranks);
        }
        best
    }
}

/// A rank is above another of a lower level; of the same level, above one of a lower rung; and of
/// the same level and rung, above one with a greater identifier. No rank is above itself, and of
/// two that differ one is above the other.
pub proof fn law_ranks_are_ordered_by_level_then_rung_then_identifier(a: Rank, b: Rank)
    ensures
        a.level > b.level ==> a.above(b) && !b.above(a),
        a.level == b.level && a.rung > b.rung ==> a.above(b) && !b.above(a),
        a.level == b.level && a.rung == b.rung && a.id < b.id ==> a.above(b) && !b.above(a),
        a.level == b.level && a.rung == b.rung && a.id == b.id ==> !a.above(b),
{
}

/// An artifact reaches itself and every parent of what it reaches, and reaches nothing else.
pub proof fn law_an_artifact_reaches_its_ancestors(lineage: Lineage, from: u32, to: u32)
    ensures
        lineage.reaches(from, from),
        forall|at: u32, p: int|
            lineage.reaches(from, at) && at < lineage.parents@.len() && 0 <= p
                < lineage.parents@[at as int]@.len() ==> lineage.reaches(
                from,
                #[trigger] lineage.parents@[at as int]@[p],
            ),
        lineage.reaches(from, to) ==> to == from || exists|at: u32, p: int|
            lineage.reaches(from, at) && at < lineage.parents@.len() && 0 <= p
                < lineage.parents@[at as int]@.len() && #[trigger] lineage.parents@[at as int]@[p]
                == to,
{
    lineage.lemma_reaches_self(from);
    assert forall|at: u32, p: int|
        lineage.reaches(from, at) && at < lineage.parents@.len() && 0 <= p
            < lineage.parents@[at as int]@.len() implies lineage.reaches(
        from,
        #[trigger] lineage.parents@[at as int]@[p],
    ) by {
        assert(lineage.ups(at).contains(lineage.parents@[at as int]@[p]));
        lineage.lemma_reaches_up(from, at, lineage.parents@[at as int]@[p]);
    }
    if lineage.reaches(from, to) && to != from {
        let path = choose|path: Seq<u32>| #[trigger]
            lineage.climbs(path) && path.len() > 0 && path[0] == from && path.last() == to;
        let n = path.len() - 1;
        let before = path.drop_last();
        let at = path[n - 1];
        assert forall|i: int| 1 <= i < before.len() implies lineage.ups(before[i - 1]).contains(
            #[trigger] before[i],
        ) by {
            assert(before[i] == path[i]);
        }
        assert(lineage.climbs(before) && before[0] == from && before.last() == at);
        assert(lineage.ups(at).contains(path[n]));
        let p = choose|p: int| 0 <= p < lineage.ups(at).len() && lineage.ups(at)[p] == path[n];
        assert(lineage.parents@[at as int]@[p] == to);
    }
}

/// The ancestor chosen for a leaf is a served artifact that the leaf reaches, under its own rung
/// and identifier, and no served artifact that the leaf reaches has a higher rung, nor the same
/// rung and a smaller identifier. None is chosen only where the leaf reaches no served artifact.
pub proof fn law_the_highest_served_ancestor_is_chosen(
    lineage: Lineage,
    level: u32,
    served: Seq<ServedArtifact>,
    leaf: u32,
    best: Option<Rank>,
) -> (at: int)
    requires
        highest(lineage.served_above(level, served, leaf), best),
    ensures
        best matches Some(rank) ==> {
            &&& 0 <= at < served.len()
            &&& lineage.reaches(leaf, served[at].ordinal)
            &&& rank.level == level && rank.rung == served[at].rung && rank.id == served[at].id
            &&& forall|k: int|
                0 <= k < served.len() && lineage.reaches(leaf, (#[trigger] served[k]).ordinal)
                    ==> served[k].rung < rank.rung || served[k].rung == rank.rung && served[k].id
                    >= rank.id
        },
        best is None ==> forall|k: int|
            0 <= k < served.len() ==> !lineage.reaches(leaf, (#[trigger] served[k]).ordinal),
{
    let ranks = lineage.served_above(level, served, leaf);
    assert forall|k: int|
        0 <= k < served.len() && lineage.reaches(
            leaf,
            (#[trigger] served[k]).ordinal,
        ) implies ranks.contains(rank_at(level, served, k)) by {}
    match best {
        Some(rank) => {
            choose|k: int|
                0 <= k < served.len() && lineage.reaches(leaf, (#[trigger] served[k]).ordinal)
                    && rank == rank_at(level, served, k)
        },
        None => 0,
    }
}

} // verus!
