//! Promotion: the dictionary ordinals of a flush's terms.

use std::collections::HashMap;

use vstd::prelude::*;

use crate::bitmap::ascending;
use crate::flush::failure::FlushFailed;
use crate::flush::plan::{BufferedItem, FlushPlan};
use crate::flush::rows::owned;
use crate::order::{
    distinct, lemma_sorted_map, lemma_sorted_members, sorted_distinct, sorted_distinct_u32, stable_sort, stably_sorted, strictly_sorted,
    Ranked,
};
use crate::seqs::{first_at, lemma_first_at, lemma_first_at_append};
use crate::text::same_bytes;

verus! {

/// A term dictionary: the descriptor of every ordinal.
#[derive(Clone, Debug, PartialEq, Eq)]
pub struct Dict {
    pub descriptors: Vec<Vec<u8>>,
}

/// Byte strings as values.
pub open spec fn byte_strings(s: Seq<Vec<u8>>) -> Seq<Seq<u8>> {
    s.map_values(|d: Vec<u8>| d@)
}

impl View for Dict {
    type V = Seq<Seq<u8>>;

    open spec fn view(&self) -> Seq<Seq<u8>> {
        byte_strings(self.descriptors@)
    }
}

impl Dict {
    /// The least ordinal of a descriptor.
    pub fn lookup(&self, descriptor: &Vec<u8>) -> (at: Option<usize>)
        ensures
            at matches Some(i) ==> first_at(self@, descriptor@) == Some(i as int),
            at is None ==> first_at(self@, descriptor@) is None,
    {
        let mut i: usize = 0;
        while i < self.descriptors.len()
            invariant
                i <= self.descriptors@.len(),
                first_at(self@.take(i as int), descriptor@) is None,
            decreases self.descriptors@.len() - i,
        {
            assert(self@.take(i + 1).drop_last() =~= self@.take(i as int));
            assert(self@.take(i + 1).last() == self.descriptors@[i as int]@);
            if same_bytes(&self.descriptors[i], descriptor) {
                proof {
                    lemma_first_at(self@.take(i + 1), descriptor@);
                    lemma_first_at_append(self@.take(i + 1), self@.skip(i + 1), descriptor@);
                    assert(self@.take(i + 1) + self@.skip(i + 1) =~= self@);
                }
                return Some(i);
            }
            i += 1;
        }
        assert(self@.take(i as int) =~= self@);
        None
    }

    /// The dictionary with more descriptors, after those it holds.
    pub fn extended_with(&self, more: &Vec<Vec<u8>>) -> (dict: Dict)
        ensures
            dict@ == self@ + byte_strings(more@),
    {
        let mut descriptors: Vec<Vec<u8>> = Vec::new();
        let mut i: usize = 0;
        while i < self.descriptors.len()
            invariant
                i <= self.descriptors@.len(),
                byte_strings(descriptors@) == self@.take(i as int),
            decreases self.descriptors@.len() - i,
        {
            let ghost before = descriptors@;
            descriptors.push(self.descriptors[i].clone());
            assert(byte_strings(descriptors@) =~= byte_strings(before).push(
                self.descriptors@[i as int]@,
            ));
            assert(self@.take(i + 1) =~= self@.take(i as int).push(self@[i as int]));
            i += 1;
        }
        let mut j: usize = 0;
        assert(byte_strings(descriptors@) =~= self@ + byte_strings(more@).take(0));
        while j < more.len()
            invariant
                j <= more@.len(),
                byte_strings(descriptors@) == self@ + byte_strings(more@).take(j as int),
            decreases more@.len() - j,
        {
            let ghost before = descriptors@;
            descriptors.push(more[j].clone());
            assert(byte_strings(descriptors@) =~= byte_strings(before).push(more@[j as int]@));
            assert(byte_strings(more@).take(j + 1) =~= byte_strings(more@).take(j as int).push(
                more@[j as int]@,
            ));
            assert(byte_strings(descriptors@) =~= self@ + byte_strings(more@).take(j + 1));
            j += 1;
        }
        assert(byte_strings(more@).take(j as int) =~= byte_strings(more@));
        Dict { descriptors }
    }
}

/// What a flush's terms are numbered against: the dictionary, the descriptors of the terms past
/// it, and the most terms the dictionary may hold.
pub struct TermSpace {
    pub dict: Seq<Seq<u8>>,
    pub novel: Map<u32, Seq<u8>>,
    pub most: nat,
}

impl TermSpace {
    /// Whether a term gets an ordinal of its own: it is past the dictionary, and the dictionary
    /// does not hold its descriptor.
    pub open spec fn is_fresh(self, term: u32) -> bool {
        term >= self.dict.len() && self.novel.contains_key(term) && first_at(
            self.dict,
            self.novel[term],
        ) is None
    }

    /// The fresh terms, each once, in the order they first occur.
    pub open spec fn fresh(self, terms: Seq<u32>) -> Seq<u32>
        decreases terms.len(),
    {
        if terms.len() == 0 {
            Seq::empty()
        } else {
            let before = self.fresh(terms.drop_last());
            if self.is_fresh(terms.last()) && !before.contains(terms.last()) {
                before.push(terms.last())
            } else {
                before
            }
        }
    }

    /// A term's ordinal: itself within the dictionary, its descriptor's where the dictionary holds
    /// it, and otherwise past the dictionary in the order of `fresh`.
    pub open spec fn ordinal(self, fresh: Seq<u32>, term: u32) -> u32 {
        if term < self.dict.len() {
            term
        } else {
            match first_at(self.dict, self.novel[term]) {
                Some(i) => i as u32,
                None => (self.dict.len() + first_at(fresh, term).unwrap()) as u32,
            }
        }
    }

    /// The failure of the first of `terms` that fails, after the terms `before`.
    pub open spec fn term_failure(self, before: Seq<u32>, terms: Seq<u32>) -> Option<FlushFailed>
        decreases terms.len(),
    {
        if terms.len() == 0 {
            None
        } else if self.term_failure(before, terms.drop_last()) is Some {
            self.term_failure(before, terms.drop_last())
        } else {
            let term = terms.last();
            let fresh = self.fresh(before + terms.drop_last());
            if term < self.dict.len() {
                None
            } else if !self.novel.contains_key(term) {
                Some(FlushFailed::NoDescriptor { term })
            } else if self.is_fresh(term) && !fresh.contains(term) && self.dict.len() + fresh.len()
                >= self.most {
                Some(
                    FlushFailed::TooManyTerms {
                        next: (self.dict.len() + fresh.len()) as u64,
                        most: self.most as u64,
                    },
                )
            } else {
                None
            }
        }
    }

    /// The failure of the first row that fails: its entity first, then its terms in order.
    pub open spec fn failure(self, rows: Seq<(u64, BufferedItem)>) -> Option<FlushFailed>
        decreases rows.len(),
    {
        if rows.len() == 0 {
            None
        } else if self.failure(rows.drop_last()) is Some {
            self.failure(rows.drop_last())
        } else if rows.last().0 > u32::MAX {
            Some(FlushFailed::EntityTooWide { entity: rows.last().0 })
        } else {
            self.term_failure(all_terms(rows.drop_last()), rows.last().1.terms@)
        }
    }

    /// The ordinals of a row's terms.
    pub open spec fn ordinals(self, fresh: Seq<u32>, terms: Seq<u32>) -> Seq<u32> {
        terms.map_values(|t: u32| self.ordinal(fresh, t))
    }

    /// Each ordinal of each row, with the row's entity.
    pub open spec fn pairs(self, fresh: Seq<u32>, rows: Seq<(u64, BufferedItem)>) -> Seq<
        (u32, u32),
    >
        decreases rows.len(),
    {
        if rows.len() == 0 {
            Seq::empty()
        } else {
            let row = rows.last();
            self.pairs(fresh, rows.drop_last()) + self.ordinals(fresh, row.1.terms@).map_values(
                |o: u32| (o, row.0 as u32),
            )
        }
    }
}

/// Every term of the rows, in order.
pub open spec fn all_terms(rows: Seq<(u64, BufferedItem)>) -> Seq<u32>
    decreases rows.len(),
{
    if rows.len() == 0 {
        Seq::empty()
    } else {
        all_terms(rows.drop_last()) + rows.last().1.terms@
    }
}

/// The term space of a dictionary, the descriptors past it and a bound.
pub open spec fn space_of(dict: Dict, novel: Map<u32, Vec<u8>>, most: u64) -> TermSpace {
    TermSpace { dict: dict@, novel: novel.map_values(|d: Vec<u8>| d@), most: most as nat }
}

/// The numbering of the terms seen so far.
struct Numbering {
    fresh: Vec<u32>,
    interned: Vec<Vec<u8>>,
    assigned: HashMap<u32, u32>,
    seen: Ghost<Seq<u32>>,
}

impl Numbering {
    spec fn inv(&self, space: TermSpace) -> bool {
        &&& self.fresh@ == space.fresh(self.seen@)
        &&& byte_strings(self.interned@) == self.fresh@.map_values(|t: u32| space.novel[t])
        &&& forall|t: u32| #[trigger]
            self.assigned@.contains_key(t) <==> self.seen@.contains(t) && t >= space.dict.len()
        &&& forall|t: u32| #[trigger]
            self.assigned@.contains_key(t) ==> {
                &&& space.novel.contains_key(t)
                &&& self.assigned@[t] == space.ordinal(self.fresh@, t)
                &&& space.is_fresh(t) ==> self.fresh@.contains(t)
            }
        &&& self.fresh@.len() > 0 ==> space.dict.len() + self.fresh@.len() <= space.most
        &&& forall|i: int| 0 <= i < self.fresh@.len() ==> space.is_fresh(#[trigger] self.fresh@[i])
    }

    fn number(&mut self, term: u32, dict: &Dict, novel: &HashMap<u32, Vec<u8>>, most: u64) -> (out:
        Result<(), FlushFailed>)
        requires
            old(self).inv(space_of(*dict, novel@, most)),
            dict@.len() <= u32::MAX,
        ensures
            final(self).seen@ == old(self).seen@.push(term) || out is Err,
            out is Ok ==> final(self).inv(space_of(*dict, novel@, most)),
            ({
                let space = space_of(*dict, novel@, most);
                let fresh = space.fresh(old(self).seen@);
                match out {
                    Ok(_) => term < space.dict.len() || (space.novel.contains_key(term) && (
                    space.is_fresh(term) && !fresh.contains(term) ==> space.dict.len()
                        + fresh.len() < space.most)),
                    Err(why) => term >= space.dict.len() && if !space.novel.contains_key(term) {
                        why == (FlushFailed::NoDescriptor { term })
                    } else {
                        space.is_fresh(term) && !fresh.contains(term) && space.dict.len()
                            + fresh.len() >= space.most && why == (FlushFailed::TooManyTerms {
                            next: (space.dict.len() + fresh.len()) as u64,
                            most,
                        })
                    },
                }
            }),
    {
        let ghost space = space_of(*dict, novel@, most);
        let ghost seen = self.seen@;
        let ghost grown = seen.push(term);
        let ghost fresh = self.fresh@;
        proof {
            assert(grown.drop_last() =~= seen);
            assert forall|t: u32| #[trigger]
                grown.contains(t) == (seen.contains(t) || t == term) by {
                if seen.contains(t) {
                    let i = choose|i: int| 0 <= i < seen.len() && seen[i] == t;
                    assert(grown[i] == t);
                }
                assert(grown[seen.len() as int] == term);
            }
        }
        let dict_len: u64 = dict.descriptors.len() as u64;
        if (term as u64) < dict_len {
            self.seen = Ghost(grown);
            return Ok(());
        }
        if self.assigned.contains_key(&term) {
            self.seen = Ghost(grown);
            return Ok(());
        }
        let descriptor = match novel.get(&term) {
            Some(descriptor) => descriptor,
            None => {
                return Err(FlushFailed::NoDescriptor { term });
            },
        };
        assert(space.novel[term] == descriptor@);
        match dict.lookup(descriptor) {
            Some(existing) => {
                self.assigned.insert(term, existing as u32);
                self.seen = Ghost(grown);
            },
            None => {
                proof {
                    if fresh.contains(term) {
                        lemma_fresh_members(space, seen, term);
                        assert(seen.contains(term));
                        assert(self.assigned@.contains_key(term));
                    }
                }
                assert(byte_strings(self.interned@).len() == fresh.len());
                let next: u64 = dict_len + self.interned.len() as u64;
                if next >= most {
                    return Err(FlushFailed::TooManyTerms { next, most });
                }
                let ghost interned = self.interned@;
                self.interned.push(descriptor.clone());
                self.fresh.push(term);
                let ghost old_assigned = self.assigned@;
                #[verifier::truncate]
                let ordinal: u32 = next as u32;
                self.assigned.insert(term, ordinal);
                self.seen = Ghost(grown);
                proof {
                    let one = seq![term];
                    assert(self.fresh@ =~= fresh + one);
                    lemma_first_at(self.fresh@, term);
                    assert(self.fresh@.drop_last() =~= fresh);
                    assert(self.fresh@[fresh.len() as int] == term);
                    lemma_first_at(fresh, term);
                    assert(byte_strings(self.interned@) =~= byte_strings(interned).push(
                        descriptor@,
                    ));
                    assert(self.fresh@.map_values(|t: u32| space.novel[t]) =~= fresh.map_values(
                        |t: u32| space.novel[t],
                    ).push(descriptor@));
                    assert forall|t: u32| #[trigger] self.assigned@.contains_key(t) implies {
                        &&& space.novel.contains_key(t)
                        &&& self.assigned@[t] == space.ordinal(self.fresh@, t)
                        &&& space.is_fresh(t) ==> self.fresh@.contains(t)
                    } by {
                        if t != term {
                            assert(old_assigned.contains_key(t));
                            if space.is_fresh(t) {
                                lemma_first_at_append(fresh, one, t);
                                let i = choose|i: int| 0 <= i < fresh.len() && fresh[i] == t;
                                assert(self.fresh@[i] == t);
                            }
                        }
                    }
                }
            },
        }
        Ok(())
    }
}

proof fn lemma_fresh_members(space: TermSpace, terms: Seq<u32>, t: u32)
    requires
        space.fresh(terms).contains(t),
    ensures
        terms.contains(t),
    decreases terms.len(),
{
    if terms.len() > 0 {
        let before = space.fresh(terms.drop_last());
        let i = choose|i: int| 0 <= i < space.fresh(terms).len() && space.fresh(terms)[i] == t;
        if i < before.len() {
            assert(before[i] == t);
            lemma_fresh_members(space, terms.drop_last(), t);
            let j = choose|j: int|
                0 <= j < terms.drop_last().len() && terms.drop_last()[j] == t;
            assert(terms[j] == t);
        } else {
            assert(terms[terms.len() - 1] == t);
        }
    }
}

/// Number every term of `rows`, or fail as the first row that fails does.
fn number_rows(
    rows: &Vec<&(u64, BufferedItem)>,
    dict: &Dict,
    novel: &HashMap<u32, Vec<u8>>,
    most: u64,
) -> (out: Result<Numbering, FlushFailed>)
    requires
        dict@.len() <= u32::MAX,
    ensures
        out matches Ok(numbering) ==> numbering.inv(space_of(*dict, novel@, most))
            && numbering.seen@ == all_terms(owned(rows@)) && space_of(*dict, novel@, most).failure(
            owned(rows@),
        ) is None && forall|i: int| 0 <= i < rows@.len() ==> (#[trigger] rows@[i]).0 <= u32::MAX,
        out matches Err(why) ==> space_of(*dict, novel@, most).failure(owned(rows@)) == Some(why),
{
    let ghost space = space_of(*dict, novel@, most);
    let ghost all = owned(rows@);
    let mut numbering = Numbering {
        fresh: Vec::new(),
        interned: Vec::new(),
        assigned: HashMap::new(),
        seen: Ghost(Seq::empty()),
    };
    proof {
        assert(byte_strings(numbering.interned@) =~= numbering.fresh@.map_values(
            |t: u32| space.novel[t],
        ));
        assert(numbering.fresh@ =~= space.fresh(numbering.seen@));
    }
    let mut i: usize = 0;
    while i < rows.len()
        invariant
            i <= rows@.len(),
            all == owned(rows@),
            dict@.len() <= u32::MAX,
            space == space_of(*dict, novel@, most),
            numbering.inv(space),
            numbering.seen@ == all_terms(all.take(i as int)),
            space.failure(all.take(i as int)) is None,
            forall|k: int| 0 <= k < i ==> (#[trigger] rows@[k]).0 <= u32::MAX,
        decreases rows@.len() - i,
    {
        let row: &(u64, BufferedItem) = rows[i];
        let ghost before = numbering.seen@;
        let ghost done = all.take(i + 1);
        proof {
            assert(done.drop_last() =~= all.take(i as int));
            assert(done.last() == *row);
        }
        if row.0 > u32::MAX as u64 {
            proof {
                lemma_failure_stays(space, all, i + 1);
            }
            return Err(FlushFailed::EntityTooWide { entity: row.0 });
        }
        let terms = &row.1.terms;
        let mut j: usize = 0;
        assert(before + terms@.take(0) =~= before);
        while j < terms.len()
            invariant
                j <= terms@.len(),
                dict@.len() <= u32::MAX,
                space == space_of(*dict, novel@, most),
                numbering.inv(space),
                numbering.seen@ == before + terms@.take(j as int),
                space.term_failure(before, terms@.take(j as int)) is None,
                all == owned(rows@),
                i < rows@.len(),
                done == all.take(i + 1),
                done.drop_last() == all.take(i as int),
                done.last() == *row,
                *terms == row.1.terms,
                row.0 <= u32::MAX,
                before == all_terms(all.take(i as int)),
                space.failure(all.take(i as int)) is None,
            decreases terms@.len() - j,
        {
            proof {
                assert(terms@.take(j + 1).drop_last() =~= terms@.take(j as int));
                assert(terms@.take(j + 1).last() == terms@[j as int]);
                assert((before + terms@.take(j as int)).push(terms@[j as int]) =~= before
                    + terms@.take(j + 1));
            }
            match numbering.number(terms[j], dict, novel, most) {
                Ok(_) => {},
                Err(why) => {
                    proof {
                        assert(space.term_failure(before, terms@.take(j + 1)) == Some(why));
                        lemma_term_failure_stays(space, before, terms@, j + 1);
                        assert(space.failure(done) == Some(why));
                        lemma_failure_stays(space, all, i + 1);
                    }
                    return Err(why);
                },
            }
            j += 1;
        }
        proof {
            assert(terms@.take(j as int) =~= terms@);
        }
        i += 1;
    }
    assert(all.take(i as int) =~= all);
    Ok(numbering)
}

proof fn lemma_term_failure_stays(space: TermSpace, before: Seq<u32>, terms: Seq<u32>, n: int)
    requires
        0 <= n <= terms.len(),
        space.term_failure(before, terms.take(n)) is Some,
    ensures
        space.term_failure(before, terms) == space.term_failure(before, terms.take(n)),
    decreases terms.len(),
{
    if n == terms.len() {
        assert(terms.take(n) =~= terms);
    } else {
        assert(terms.drop_last().take(n) =~= terms.take(n));
        lemma_term_failure_stays(space, before, terms.drop_last(), n);
    }
}

proof fn lemma_failure_stays(space: TermSpace, rows: Seq<(u64, BufferedItem)>, n: int)
    requires
        0 <= n <= rows.len(),
        space.failure(rows.take(n)) is Some,
    ensures
        space.failure(rows) == space.failure(rows.take(n)),
    decreases rows.len(),
{
    if n == rows.len() {
        assert(rows.take(n) =~= rows);
    } else {
        assert(rows.drop_last().take(n) =~= rows.take(n));
        lemma_failure_stays(space, rows.drop_last(), n);
    }
}

/// What promotion gives a flush.
#[derive(Debug, PartialEq, Eq)]
pub struct Promotion {
    /// The descriptors the dictionary grows by, in ordinal order.
    pub interned: Vec<Vec<u8>>,
    /// The grown dictionary.
    pub dict: Dict,
    /// The entities of each ordinal the flush's rows carry.
    pub postings: Vec<(u32, Vec<u32>)>,
    /// The ordinals of each row, by entity.
    pub per_entity: Vec<(u32, Vec<u32>)>,
}

/// Whether `postings` lists an entity under an ordinal.
pub open spec fn posts(postings: Seq<(u32, Vec<u32>)>, ordinal: u32, entity: u32) -> bool {
    exists|k: int|
        0 <= k < postings.len() && (#[trigger] postings[k]).0 == ordinal
            && postings[k].1@.contains(entity)
}

/// Ascending by ordinal, and every list ascending and not empty.
pub open spec fn postings_ordered(postings: Seq<(u32, Vec<u32>)>) -> bool {
    &&& forall|i: int, j: int|
        0 <= i < j < postings.len() ==> (#[trigger] postings[i]).0 < (#[trigger] postings[j]).0
    &&& forall|i: int|
        0 <= i < postings.len() ==> ascending((#[trigger] postings[i]).1@)
            && postings[i].1@.len() > 0
}

/// A plan's rows with the ordinals of each, ascending by entity.
pub open spec fn entity_ordinals(
    space: TermSpace,
    fresh: Seq<u32>,
    rows: Seq<(u64, BufferedItem)>,
) -> Seq<(u64, Seq<u32>)> {
    stably_sorted(
        rows.map_values(
            |r: (u64, BufferedItem)| (r.0, distinct(space.ordinals(fresh, r.1.terms@))),
        ),
    )
}

/// Whether `promotion` is what the rows' terms come to: the fresh terms' descriptors after the
/// dictionary's, the entities of each ordinal, and the ordinals of each row.
pub open spec fn promotes(
    space: TermSpace,
    rows: Seq<(u64, BufferedItem)>,
    promotion: Promotion,
) -> bool {
    let fresh = space.fresh(all_terms(rows));
    let by_entity = entity_ordinals(space, fresh, rows);
    &&& byte_strings(promotion.interned@) == fresh.map_values(|t: u32| space.novel[t])
    &&& promotion.dict@ == space.dict + byte_strings(promotion.interned@)
    &&& postings_ordered(promotion.postings@)
    &&& forall|o: u32, e: u32|
        posts(promotion.postings@, o, e) == space.pairs(fresh, rows).contains((o, e))
    &&& promotion.per_entity@.len() == by_entity.len()
    &&& forall|i: int|
        0 <= i < by_entity.len() ==> (#[trigger] promotion.per_entity@[i]).0 == by_entity[i].0
            && promotion.per_entity@[i].1@ == by_entity[i].1
}

/// Group strictly ascending pairs by their first component.
fn grouped(pairs: Vec<(u32, u32)>) -> (out: Vec<(u32, Vec<u32>)>)
    requires
        strictly_sorted(pairs@),
    ensures
        postings_ordered(out@),
        forall|o: u32, e: u32| posts(out@, o, e) == pairs@.contains((o, e)),
{
    let mut out: Vec<(u32, Vec<u32>)> = Vec::new();
    let mut i: usize = 0;
    while i < pairs.len()
        invariant
            i <= pairs@.len(),
            strictly_sorted(pairs@),
            postings_ordered(out@),
            forall|o: u32, e: u32| posts(out@, o, e) == pairs@.take(i as int).contains((o, e)),
            i < pairs@.len() ==> forall|k: int|
                0 <= k < out@.len() ==> (#[trigger] out@[k]).0 < pairs@[i as int].0,
        decreases pairs@.len() - i,
    {
        let ordinal: u32 = pairs[i].0;
        let ghost done = pairs@.take(i as int);
        let ghost out0 = out@;
        let mut list: Vec<u32> = Vec::new();
        let ghost first = i as int;
        while i < pairs.len() && pairs[i].0 == ordinal
            invariant
                first <= i <= pairs@.len(),
                0 <= first < pairs@.len(),
                i == first ==> pairs@[first].0 == ordinal,
                strictly_sorted(pairs@),
                ascending(list@),
                list@.len() == i - first,
                forall|k: int| 0 <= k < list@.len() ==> pairs@[first + k] == (ordinal, #[trigger] list@[k]),
            decreases pairs@.len() - i,
        {
            let ghost before = list@;
            proof {
                assert forall|k: int| 0 <= k < before.len() implies before[k] < pairs@[i as int].1 by {
                    assert(pairs@[first + k].precedes(pairs@[i as int]) && !pairs@[i as int].precedes(pairs@[first + k]));
                }
            }
            list.push(pairs[i].1);
            i += 1;
        }
        out.push((ordinal, list));
        proof {
            assert(out@[out0.len() as int] == (ordinal, list));
            if i < pairs@.len() {
                assert(pairs@[first].precedes(pairs@[i as int]));
            }
            assert forall|o: u32, e: u32| posts(out@, o, e) == pairs@.take(i as int).contains(
                (o, e),
            ) by {
                let now = pairs@.take(i as int);
                if posts(out0, o, e) {
                    let k = choose|k: int|
                        0 <= k < out0.len() && (#[trigger] out0[k]).0 == o && out0[k].1@.contains(e);
                    assert(out@[k] == out0[k]);
                }
                if done.contains((o, e)) {
                    let k = choose|k: int| 0 <= k < done.len() && done[k] == (o, e);
                    assert(now[k] == (o, e));
                }
                if list@.contains(e) && o == ordinal {
                    let k = choose|k: int| 0 <= k < list@.len() && list@[k] == e;
                    assert(now[first + k] == (o, e));
                    assert(out@[out0.len() as int].1@.contains(e));
                }
                if now.contains((o, e)) {
                    let k = choose|k: int| 0 <= k < now.len() && now[k] == (o, e);
                    if k < first {
                        assert(done[k] == (o, e));
                    } else {
                        assert(list@[k - first] == e);
                    }
                }
                if posts(out@, o, e) {
                    let k = choose|k: int|
                        0 <= k < out@.len() && (#[trigger] out@[k]).0 == o && out@[k].1@.contains(e);
                    if k < out0.len() {
                        assert(out0[k] == out@[k]);
                        assert(posts(out0, o, e));
                    }
                }
            }
        }
    }
    assert(pairs@.take(i as int) =~= pairs@);
    out
}

proof fn lemma_all_terms_holds(rows: Seq<(u64, BufferedItem)>, i: int, j: int)
    requires
        0 <= i < rows.len(),
        0 <= j < rows[i].1.terms@.len(),
    ensures
        all_terms(rows).contains(rows[i].1.terms@[j]),
    decreases rows.len(),
{
    let front = all_terms(rows.drop_last());
    let back = rows.last().1.terms@;
    let t = rows[i].1.terms@[j];
    if i == rows.len() - 1 {
        assert((front + back)[front.len() + j] == t);
    } else {
        lemma_all_terms_holds(rows.drop_last(), i, j);
        let k = choose|k: int| 0 <= k < front.len() && front[k] == t;
        assert((front + back)[k] == t);
    }
}

/// Each row's ordinals paired with its entity, and each row's distinct ordinals.
fn ordinal_rows(rows: &Vec<&(u64, BufferedItem)>, numbering: &Numbering, dict: &Dict, space: Ghost<TermSpace>) -> (out: (
    Vec<(u32, u32)>,
    Vec<(u64, Vec<u32>)>,
))
    requires
        space@.dict == dict@,
        dict@.len() <= u32::MAX,
        numbering.inv(space@),
        numbering.seen@ == all_terms(owned(rows@)),
        forall|i: int| 0 <= i < rows@.len() ==> (#[trigger] rows@[i]).0 <= u32::MAX,
    ensures
        out.0@ == space@.pairs(numbering.fresh@, owned(rows@)),
        out.1@.map_values(|p: (u64, Vec<u32>)| (p.0, p.1@)) == owned(rows@).map_values(
            |r: (u64, BufferedItem)|
                (r.0, distinct(space@.ordinals(numbering.fresh@, r.1.terms@))),
        ),
{
    let ghost all = owned(rows@);
    let ghost fresh = numbering.fresh@;
    let ghost f = |p: (u64, Vec<u32>)| (p.0, p.1@);
    let ghost g = |r: (u64, BufferedItem)| (r.0, distinct(space@.ordinals(fresh, r.1.terms@)));
    let dict_len: u64 = dict.descriptors.len() as u64;
    let mut pairs: Vec<(u32, u32)> = Vec::new();
    let mut per: Vec<(u64, Vec<u32>)> = Vec::new();
    let mut i: usize = 0;
    assert(per@.map_values(f) =~= all.take(0).map_values(g));
    assert(pairs@ =~= space@.pairs(fresh, all.take(0)));
    while i < rows.len()
        invariant
            i <= rows@.len(),
            all == owned(rows@),
            fresh == numbering.fresh@,
            f == |p: (u64, Vec<u32>)| (p.0, p.1@),
            g == |r: (u64, BufferedItem)|
                (r.0, distinct(space@.ordinals(fresh, r.1.terms@))),
            space@.dict == dict@,
            dict_len == dict@.len(),
            numbering.inv(space@),
            numbering.seen@ == all_terms(all),
            forall|k: int| 0 <= k < rows@.len() ==> (#[trigger] rows@[k]).0 <= u32::MAX,
            pairs@ == space@.pairs(fresh, all.take(i as int)),
            per@.map_values(f) == all.take(i as int).map_values(g),
        decreases rows@.len() - i,
    {
        let row: &(u64, BufferedItem) = rows[i];
        assert(rows@[i as int].0 <= u32::MAX);
        let entity: u32 = row.0 as u32;
        let terms = &row.1.terms;
        let ghost pairs0 = pairs@;
        let ghost ords = space@.ordinals(fresh, terms@);
        let ghost mine_pairs = ords.map_values(|o: u32| (o, row.0 as u32));
        let mut mine: Vec<u32> = Vec::new();
        let mut j: usize = 0;
        assert(mine@ =~= ords.take(0));
        assert(pairs@ =~= pairs0 + mine_pairs.take(0));
        while j < terms.len()
            invariant
                j <= terms@.len(),
                i < rows@.len(),
                all == owned(rows@),
                *row == all[i as int],
                *terms == row.1.terms,
                entity == row.0,
                fresh == numbering.fresh@,
                space@.dict == dict@,
                dict_len == dict@.len(),
                numbering.inv(space@),
                numbering.seen@ == all_terms(all),
                ords == space@.ordinals(fresh, terms@),
                mine_pairs == ords.map_values(|o: u32| (o, row.0 as u32)),
                mine@ == ords.take(j as int),
                pairs@ == pairs0 + mine_pairs.take(j as int),
            decreases terms@.len() - j,
        {
            let term: u32 = terms[j];
            proof {
                lemma_all_terms_holds(all, i as int, j as int);
            }
            let ordinal: u32 = if (term as u64) < dict_len {
                term
            } else {
                assert(numbering.assigned@.contains_key(term));
                match numbering.assigned.get(&term) {
                    Some(ordinal) => *ordinal,
                    None => term,
                }
            };
            assert(ordinal == ords[j as int]);
            pairs.push((ordinal, entity));
            mine.push(ordinal);
            j += 1;
            assert(ords.take(j as int) =~= ords.take(j - 1).push(ordinal));
            assert(mine_pairs.take(j as int) =~= mine_pairs.take(j - 1).push((ordinal, entity)));
            assert(pairs@ =~= pairs0 + mine_pairs.take(j as int));
        }
        assert(ords.take(j as int) =~= ords);
        assert(mine_pairs.take(j as int) =~= mine_pairs);
        let ghost per0 = per@;
        per.push((row.0, sorted_distinct_u32(mine)));
        proof {
            assert(all.take(i + 1).drop_last() =~= all.take(i as int));
            assert(all.take(i + 1).last() == *row);
            assert(pairs@ == space@.pairs(fresh, all.take(i + 1)));
            assert(per@.map_values(f) =~= per0.map_values(f).push((row.0, distinct(ords))));
            assert(all.take(i + 1).map_values(g) =~= all.take(i as int).map_values(g).push(
                (row.0, distinct(ords)),
            ));
        }
        i += 1;
    }
    assert(all.take(i as int) =~= all);
    (pairs, per)
}

/// Number a flush's terms against the dictionary, and gather its postings.
///
/// A term past the dictionary takes the ordinal of its descriptor where the dictionary holds it,
/// and the next one otherwise: a term without a descriptor fails the flush rather than being left
/// out, and so does a descriptor that would carry the dictionary to `max_distinct_terms`.
pub fn promote(
    plan: &FlushPlan,
    dict: &Dict,
    novel_descriptors: &HashMap<u32, Vec<u8>>,
    max_distinct_terms: u64,
) -> (out: Result<Promotion, FlushFailed>)
    requires
        dict@.len() <= u32::MAX,
    ensures
        out is Err <==> space_of(*dict, novel_descriptors@, max_distinct_terms).failure(
            plan.own_rows(),
        ) is Some,
        out matches Err(why) ==> space_of(*dict, novel_descriptors@, max_distinct_terms).failure(
            plan.own_rows(),
        ) == Some(why),
        out matches Ok(promotion) ==> promotes(
            space_of(*dict, novel_descriptors@, max_distinct_terms),
            plan.own_rows(),
            promotion,
        ),
{
    let rows = plan.entity_space_items();
    let numbering = number_rows(&rows, dict, novel_descriptors, max_distinct_terms)?;
    let ghost space = space_of(*dict, novel_descriptors@, max_distinct_terms);
    let (pairs, per) = ordinal_rows(&rows, &numbering, dict, Ghost(space));
    let ghost listed = pairs@;
    let pairs = sorted_distinct(pairs);
    proof {
        assert forall|p: (u32, u32)| #[trigger] pairs@.contains(p) == listed.contains(p) by {
            if listed.contains(p) {
                let k = choose|k: int| 0 <= k < listed.len() && listed[k] == p;
                assert(crate::order::holds_tie(pairs@, listed[k]));
                let i = choose|i: int|
                    0 <= i < pairs@.len() && crate::order::ties(#[trigger] pairs@[i], p);
                assert(pairs@[i] == p);
            }
        }
    }
    let postings = grouped(pairs);
    let ghost per0 = per@;
    let mut per = stable_sort(per);
    let ghost by_entity = per@;
    proof {
        let f = |p: (u64, Vec<u32>)| (p.0, p.1@);
        let g = |r: (u64, BufferedItem)|
            (r.0, distinct(space.ordinals(numbering.fresh@, r.1.terms@)));
        assert(per0.map_values(f) == owned(rows@).map_values(g));
        assert(per0.map_values(f).len() == per0.len());
        assert(owned(rows@).map_values(g).len() == rows@.len());
        lemma_sorted_map(per0, f);
        assert forall|i: int| 0 <= i < by_entity.len() implies (#[trigger] by_entity[i]).0
            <= u32::MAX by {
            lemma_sorted_members(per0, by_entity[i]);
            assert(by_entity.contains(by_entity[i]));
            let k = choose|k: int| 0 <= k < per0.len() && per0[k] == by_entity[i];
            assert(per0.map_values(f)[k] == (per0[k].0, per0[k].1@));
            assert(owned(rows@).map_values(g)[k].0 == rows@[k].0);
        }
    }
    let mut back: Vec<(u32, Vec<u32>)> = Vec::new();
    while per.len() > 0
        invariant
            per@.len() + back@.len() == by_entity.len(),
            per@ == by_entity.take(per@.len() as int),
            forall|i: int| 0 <= i < by_entity.len() ==> (#[trigger] by_entity[i]).0 <= u32::MAX,
            forall|i: int|
                0 <= i < back@.len() ==> (#[trigger] back@[i]).0 == by_entity[by_entity.len() - 1
                    - i].0 && back@[i].1 == by_entity[by_entity.len() - 1 - i].1,
        decreases per.len(),
    {
        let ghost before = per@;
        if let Some((entity, ordinals)) = per.pop() {
            assert(before[before.len() - 1] == by_entity[before.len() - 1]);
            assert(per@ =~= by_entity.take(per@.len() as int));
            back.push((entity as u32, ordinals));
        }
    }
    let interned = numbering.interned;
    let dict = dict.extended_with(&interned);
    Ok(Promotion { interned, dict, postings, per_entity: crate::order::reversed(back) })
}

proof fn lemma_fresh_within(space: TermSpace, before: Seq<u32>, terms: Seq<u32>, most: nat)
    requires
        space.term_failure(before, terms) is None,
        space.most <= most,
        space.dict.len() + space.fresh(before).len() <= most,
    ensures
        space.dict.len() + space.fresh(before + terms).len() <= most,
    decreases terms.len(),
{
    if terms.len() == 0 {
        assert(before + terms =~= before);
    } else {
        lemma_fresh_within(space, before, terms.drop_last(), most);
        assert((before + terms).drop_last() =~= before + terms.drop_last());
        assert((before + terms).last() == terms.last());
    }
}

proof fn lemma_rows_within(space: TermSpace, rows: Seq<(u64, BufferedItem)>, most: nat)
    requires
        space.failure(rows) is None,
        space.most <= most,
        space.dict.len() <= most,
    ensures
        space.dict.len() + space.fresh(all_terms(rows)).len() <= most,
    decreases rows.len(),
{
    if rows.len() > 0 {
        lemma_rows_within(space, rows.drop_last(), most);
        lemma_fresh_within(space, all_terms(rows.drop_last()), rows.last().1.terms@, most);
    }
}

proof fn lemma_fresh_holds(space: TermSpace, terms: Seq<u32>, term: u32)
    requires
        terms.contains(term),
        space.is_fresh(term),
    ensures
        space.fresh(terms).contains(term),
    decreases terms.len(),
{
    let before = space.fresh(terms.drop_last());
    let k = choose|k: int| 0 <= k < terms.len() && terms[k] == term;
    if k < terms.len() - 1 {
        assert(terms.drop_last()[k] == term);
        lemma_fresh_holds(space, terms.drop_last(), term);
        let j = choose|j: int| 0 <= j < before.len() && before[j] == term;
        assert(space.fresh(terms)[j] == term);
    } else if before.contains(term) {
        let j = choose|j: int| 0 <= j < before.len() && before[j] == term;
        assert(space.fresh(terms)[j] == term);
    } else {
        assert(space.fresh(terms)[before.len() as int] == term);
    }
}

proof fn lemma_terms_described(space: TermSpace, before: Seq<u32>, terms: Seq<u32>, term: u32)
    requires
        space.term_failure(before, terms) is None,
        terms.contains(term),
    ensures
        term < space.dict.len() || space.novel.contains_key(term),
    decreases terms.len(),
{
    let k = choose|k: int| 0 <= k < terms.len() && terms[k] == term;
    if k < terms.len() - 1 {
        assert(terms.drop_last()[k] == term);
        lemma_terms_described(space, before, terms.drop_last(), term);
    }
}

proof fn lemma_rows_described(space: TermSpace, rows: Seq<(u64, BufferedItem)>, term: u32)
    requires
        space.failure(rows) is None,
        all_terms(rows).contains(term),
    ensures
        term < space.dict.len() || space.novel.contains_key(term),
    decreases rows.len(),
{
    let before = all_terms(rows.drop_last());
    let last = rows.last().1.terms@;
    let k = choose|k: int| 0 <= k < all_terms(rows).len() && all_terms(rows)[k] == term;
    if k < before.len() {
        assert(before[k] == term);
        lemma_rows_described(space, rows.drop_last(), term);
    } else {
        assert(last[k - before.len()] == term);
        lemma_terms_described(space, before, last, term);
    }
}

/// A promoted ordinal names its term's descriptor in the dictionary the flush publishes: a term of
/// the dictionary keeps its own, and a term past it is found under the descriptor it came with.
pub proof fn law_a_promoted_ordinal_names_its_descriptor(
    space: TermSpace,
    rows: Seq<(u64, BufferedItem)>,
    promotion: Promotion,
    term: u32,
)
    requires
        space.dict.len() <= u32::MAX,
        space.most <= 0x1_0000_0000,
        space.failure(rows) is None,
        promotes(space, rows, promotion),
        all_terms(rows).contains(term),
    ensures
        space.ordinal(space.fresh(all_terms(rows)), term) < promotion.dict@.len(),
        promotion.dict@[space.ordinal(space.fresh(all_terms(rows)), term) as int] == if term
            < space.dict.len() {
            space.dict[term as int]
        } else {
            space.novel[term]
        },
{
    let fresh = space.fresh(all_terms(rows));
    lemma_rows_within(space, rows, 0x1_0000_0000);
    lemma_rows_described(space, rows, term);
    if term >= space.dict.len() {
        lemma_first_at(space.dict, space.novel[term]);
        if space.is_fresh(term) {
            lemma_fresh_holds(space, all_terms(rows), term);
            lemma_first_at(fresh, term);
            let i = first_at(fresh, term)->0;
            assert(byte_strings(promotion.interned@)[i] == space.novel[fresh[i]]);
        }
    }
}

proof fn lemma_pairs(space: TermSpace, fresh: Seq<u32>, rows: Seq<(u64, BufferedItem)>, o: u32, e: u32)
    ensures
        space.pairs(fresh, rows).contains((o, e)) <==> exists|i: int, t: int|
            0 <= i < rows.len() && 0 <= t < rows[i].1.terms@.len() && rows[i].0 as u32 == e
                && space.ordinal(fresh, #[trigger] rows[i].1.terms@[t]) == o,
    decreases rows.len(),
{
    if rows.len() > 0 {
        let front = rows.drop_last();
        let row = rows.last();
        let last = rows.len() - 1;
        lemma_pairs(space, fresh, front, o, e);
        let before = space.pairs(fresh, front);
        let own = space.ordinals(fresh, row.1.terms@).map_values(|x: u32| (x, row.0 as u32));
        let all = before + own;
        assert(space.pairs(fresh, rows) == all);
        if all.contains((o, e)) {
            let k = choose|k: int| 0 <= k < all.len() && all[k] == (o, e);
            if k < before.len() {
                assert(before[k] == (o, e));
                let (i, t) = choose|i: int, t: int|
                    0 <= i < front.len() && 0 <= t < front[i].1.terms@.len() && front[i].0 as u32
                        == e && space.ordinal(fresh, #[trigger] front[i].1.terms@[t]) == o;
                assert(rows[i].1.terms@[t] == front[i].1.terms@[t]);
            } else {
                assert(own[k - before.len()] == (o, e));
                assert(space.ordinal(fresh, rows[last].1.terms@[k - before.len()]) == o);
            }
        }
        if exists|i: int, t: int|
            0 <= i < rows.len() && 0 <= t < rows[i].1.terms@.len() && rows[i].0 as u32 == e
                && space.ordinal(fresh, #[trigger] rows[i].1.terms@[t]) == o {
            let (i, t) = choose|i: int, t: int|
                0 <= i < rows.len() && 0 <= t < rows[i].1.terms@.len() && rows[i].0 as u32 == e
                    && space.ordinal(fresh, #[trigger] rows[i].1.terms@[t]) == o;
            if i < last {
                assert(front[i].1.terms@[t] == rows[i].1.terms@[t]);
                let k = choose|k: int| 0 <= k < before.len() && before[k] == (o, e);
                assert(all[k] == (o, e));
            } else {
                assert(own[t] == (o, e));
                assert(all[before.len() + t] == (o, e));
            }
        }
    }
}

proof fn lemma_term_of_a_row(rows: Seq<(u64, BufferedItem)>, i: int, t: int)
    requires
        0 <= i < rows.len(),
        0 <= t < rows[i].1.terms@.len(),
    ensures
        all_terms(rows).contains(rows[i].1.terms@[t]),
    decreases rows.len(),
{
    let before = all_terms(rows.drop_last());
    if i < rows.len() - 1 {
        lemma_term_of_a_row(rows.drop_last(), i, t);
        let k = choose|k: int| 0 <= k < before.len() && before[k] == rows[i].1.terms@[t];
        assert(all_terms(rows)[k] == rows[i].1.terms@[t]);
    } else {
        assert(all_terms(rows)[before.len() + t] == rows[i].1.terms@[t]);
    }
}

/// An entity is posted under the ordinals of its own terms: for each term of each row, some posting
/// holds the row's entity, and the dictionary that is published spells at the posting's ordinal the
/// term's own descriptor, which is the dictionary's for a term it knows and the one the term came
/// with otherwise.
pub proof fn law_an_entity_is_posted_under_its_terms_descriptors(
    space: TermSpace,
    rows: Seq<(u64, BufferedItem)>,
    promotion: Promotion,
    i: int,
    t: int,
) -> (k: int)
    requires
        space.dict.len() <= u32::MAX,
        space.most <= 0x1_0000_0000,
        space.failure(rows) is None,
        promotes(space, rows, promotion),
        0 <= i < rows.len(),
        0 <= t < rows[i].1.terms@.len(),
    ensures
        ({
            let term = rows[i].1.terms@[t];
            &&& 0 <= k < promotion.postings@.len()
            &&& promotion.postings@[k].1@.contains(rows[i].0 as u32)
            &&& promotion.postings@[k].0 < promotion.dict.descriptors@.len()
            &&& term < space.dict.len() ==> promotion.dict.descriptors@[
                promotion.postings@[k].0 as int]@ == space.dict[term as int]
            &&& term >= space.dict.len() ==> promotion.dict.descriptors@[
                promotion.postings@[k].0 as int]@ == space.novel[term]
        }),
{
    let fresh = space.fresh(all_terms(rows));
    let term = rows[i].1.terms@[t];
    let (o, e) = (space.ordinal(fresh, term), rows[i].0 as u32);
    lemma_term_of_a_row(rows, i, t);
    law_a_promoted_ordinal_names_its_descriptor(space, rows, promotion, term);
    lemma_pairs(space, fresh, rows, o, e);
    assert(space.ordinal(fresh, rows[i].1.terms@[t]) == o);
    assert(posts(promotion.postings@, o, e));
    assert(promotion.dict@[o as int] == promotion.dict.descriptors@[o as int]@);
    choose|k: int|
        0 <= k < promotion.postings@.len() && (#[trigger] promotion.postings@[k]).0 == o
            && promotion.postings@[k].1@.contains(e)
}

/// A posting holds no entity that does not carry its term: for each entity under an ordinal some row
/// of that entity has a term whose descriptor the dictionary spells there.
pub proof fn law_a_posting_holds_only_entities_that_carry_its_term(
    space: TermSpace,
    rows: Seq<(u64, BufferedItem)>,
    promotion: Promotion,
    k: int,
    e: u32,
) -> (at: (int, int))
    requires
        space.dict.len() <= u32::MAX,
        space.most <= 0x1_0000_0000,
        space.failure(rows) is None,
        promotes(space, rows, promotion),
        0 <= k < promotion.postings@.len(),
        promotion.postings@[k].1@.contains(e),
    ensures
        ({
            let (i, t) = at;
            let term = rows[i].1.terms@[t];
            &&& 0 <= i < rows.len() && 0 <= t < rows[i].1.terms@.len()
            &&& rows[i].0 as u32 == e
            &&& promotion.postings@[k].0 < promotion.dict.descriptors@.len()
            &&& promotion.dict.descriptors@[promotion.postings@[k].0 as int]@ == if term
                < space.dict.len() {
                space.dict[term as int]
            } else {
                space.novel[term]
            }
        }),
{
    let fresh = space.fresh(all_terms(rows));
    let o = promotion.postings@[k].0;
    assert(posts(promotion.postings@, o, e));
    lemma_pairs(space, fresh, rows, o, e);
    let (i, t) = choose|i: int, t: int|
        0 <= i < rows.len() && 0 <= t < rows[i].1.terms@.len() && rows[i].0 as u32 == e
            && space.ordinal(fresh, #[trigger] rows[i].1.terms@[t]) == o;
    lemma_term_of_a_row(rows, i, t);
    law_a_promoted_ordinal_names_its_descriptor(space, rows, promotion, rows[i].1.terms@[t]);
    assert(promotion.dict@[o as int] == promotion.dict.descriptors@[o as int]@);
    (i, t)
}

/// The dictionary only grows: every descriptor keeps its ordinal, and what is interned follows.
pub proof fn law_a_promotion_keeps_every_ordinal(
    space: TermSpace,
    rows: Seq<(u64, BufferedItem)>,
    promotion: Promotion,
    o: int,
)
    requires
        promotes(space, rows, promotion),
    ensures
        promotion.dict.descriptors@.len() == space.dict.len() + promotion.interned@.len(),
        0 <= o < space.dict.len() ==> promotion.dict.descriptors@[o]@ == space.dict[o],
        0 <= o < promotion.interned@.len() ==> promotion.dict.descriptors@[space.dict.len() + o]@
            == promotion.interned@[o]@,
        0 <= o < promotion.interned@.len() ==> !space.dict.contains(promotion.interned@[o]@),
{
    let fresh = space.fresh(all_terms(rows));
    assert(promotion.dict@.len() == promotion.dict.descriptors@.len());
    assert(byte_strings(promotion.interned@).len() == promotion.interned@.len());
    if 0 <= o < space.dict.len() {
        assert(promotion.dict@[o] == promotion.dict.descriptors@[o]@);
    }
    if 0 <= o < promotion.interned@.len() {
        assert(promotion.dict@[space.dict.len() + o] == promotion.dict.descriptors@[
        space.dict.len() + o]@);
        assert(byte_strings(promotion.interned@)[o] == space.novel[fresh[o]]);
        lemma_fresh_is_fresh(space, all_terms(rows), o);
        lemma_first_at(space.dict, space.novel[fresh[o]]);
    }
}

proof fn lemma_fresh_is_fresh(space: TermSpace, terms: Seq<u32>, o: int)
    requires
        0 <= o < space.fresh(terms).len(),
    ensures
        space.is_fresh(space.fresh(terms)[o]),
    decreases terms.len(),
{
    if terms.len() > 0 {
        let before = space.fresh(terms.drop_last());
        if o < before.len() {
            lemma_fresh_is_fresh(space, terms.drop_last(), o);
        }
    }
}

} // verus!
