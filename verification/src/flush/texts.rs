//! The text layer of a flush: its terms, the entities whose prose carries each, and the entities
//! that carried prose.

use croaring::Bitmap;
use vstd::prelude::*;

use crate::bitmap::{self, ascending, bits};
use crate::flush::failure::FlushFailed;
use crate::order::{holds_tie, search, strictly_sorted, ties, Ranked};
use crate::scalar::Scalar;
use crate::seqs::{first_some, lemma_first_some_stays, lemma_first_some_step};
use crate::text::{lemma_string_ties_are_equal, lists, sorted_distinct_strings};

verus! {

/// A text column's layer.
pub struct TextLayer {
    /// The distinct terms, in byte order.
    pub terms: Vec<String>,
    /// The entities of each term, in the order of `terms`.
    pub postings: Vec<Vec<u32>>,
    /// The entities that carried prose, prose with no term included.
    pub presence: Bitmap,
}

/// What a cell of a text column fails with.
pub open spec fn text_failure(cell: Scalar, column: String) -> Option<FlushFailed> {
    match cell {
        Scalar::Null => None,
        Scalar::Utf8(_) => None,
        _ => Some(FlushFailed::NotText { column, cell }),
    }
}

/// The entities of the rows that carry prose.
pub open spec fn prose_entities(rows: Seq<(u32, &Scalar)>) -> Set<u32> {
    Set::new(
        |e: u32|
            exists|i: int|
                0 <= i < rows.len() && (#[trigger] rows[i]).0 == e && *rows[i].1 is Utf8,
    )
}

/// Whether row `i` carries prose whose tokens hold `term`.
pub open spec fn carries(
    rows: Seq<(u32, &Scalar)>,
    tokens: Seq<Vec<String>>,
    i: int,
    term: Seq<char>,
) -> bool {
    *rows[i].1 is Utf8 && lists(tokens[i]@, term)
}

/// A list of entities with one more, where it is not the one already last.
pub open spec fn with_entity(list: Seq<u32>, entity: u32) -> Seq<u32> {
    if list.len() > 0 && list.last() == entity {
        list
    } else {
        list.push(entity)
    }
}

/// The entities of the first `n` rows whose prose carries `term`, in row order, without a repeat of
/// the entity just listed.
pub open spec fn carriers(
    rows: Seq<(u32, &Scalar)>,
    tokens: Seq<Vec<String>>,
    n: nat,
    term: Seq<char>,
) -> Seq<u32>
    decreases n,
{
    if n == 0 {
        Seq::empty()
    } else {
        let before = carriers(rows, tokens, (n - 1) as nat, term);
        if carries(rows, tokens, n - 1, term) {
            with_entity(before, rows[n - 1].0)
        } else {
            before
        }
    }
}

/// Whether `layer` is the text layer of the rows: none where no row carries prose, and otherwise
/// the entities that do, the distinct terms of their prose, and each term's entities.
pub open spec fn text_describes(
    rows: Seq<(u32, &Scalar)>,
    tokens: Seq<Vec<String>>,
    layer: Option<TextLayer>,
) -> bool {
    match layer {
        None => prose_entities(rows) =~= Set::empty(),
        Some(layer) => {
            &&& !(prose_entities(rows) =~= Set::empty())
            &&& bits(layer.presence) == prose_entities(rows)
            &&& strictly_sorted(layer.terms@)
            &&& forall|term: Seq<char>|
                lists(layer.terms@, term) == exists|i: int|
                    0 <= i < rows.len() && #[trigger] carries(rows, tokens, i, term)
            &&& layer.postings@.len() == layer.terms@.len()
            &&& forall|k: int|
                0 <= k < layer.terms@.len() ==> (#[trigger] layer.postings@[k])@ == carriers(
                    rows,
                    tokens,
                    rows.len(),
                    layer.terms@[k]@,
                )
        },
    }
}

/// Every token of every row that carries prose.
fn all_tokens(rows: &Vec<(u32, &Scalar)>, tokens: &Vec<Vec<String>>) -> (out: Vec<String>)
    requires
        tokens@.len() == rows@.len(),
    ensures
        forall|term: Seq<char>|
            lists(out@, term) == exists|i: int|
                0 <= i < rows@.len() && #[trigger] carries(rows@, tokens@, i, term),
{
    let mut out: Vec<String> = Vec::new();
    let mut i: usize = 0;
    while i < rows.len()
        invariant
            i <= rows@.len(),
            tokens@.len() == rows@.len(),
            forall|term: Seq<char>|
                lists(out@, term) == exists|k: int|
                    0 <= k < i && #[trigger] carries(rows@, tokens@, k, term),
        decreases rows@.len() - i,
    {
        let ghost before = out@;
        if let Scalar::Utf8(_) = rows[i].1 {
            let mine = &tokens[i];
            let mut j: usize = 0;
            assert(before + mine@.take(0) =~= before);
            while j < mine.len()
                invariant
                    j <= mine@.len(),
                    out@ == before + mine@.take(j as int),
                decreases mine@.len() - j,
            {
                out.push(mine[j].clone());
                j += 1;
                assert(mine@.take(j as int) =~= mine@.take(j - 1).push(mine@[j - 1]));
                assert(out@ =~= before + mine@.take(j as int));
            }
            assert(mine@.take(j as int) =~= mine@);
            proof {
                assert forall|term: Seq<char>|
                    lists(out@, term) == (lists(before, term) || lists(mine@, term)) by {
                    if lists(before, term) {
                        let k = choose|k: int|
                            0 <= k < before.len() && (#[trigger] before[k])@ == term;
                        assert(out@[k]@ == term);
                    }
                    if lists(mine@, term) {
                        let k = choose|k: int| 0 <= k < mine@.len() && (#[trigger] mine@[k])@ == term;
                        assert(out@[before.len() + k]@ == term);
                    }
                    if lists(out@, term) {
                        let k = choose|k: int| 0 <= k < out@.len() && (#[trigger] out@[k])@ == term;
                        if k < before.len() {
                            assert(before[k]@ == term);
                        } else {
                            assert(mine@[k - before.len()]@ == term);
                        }
                    }
                }
            }
        }
        proof {
            assert forall|term: Seq<char>|
                lists(out@, term) == exists|k: int|
                    0 <= k < i + 1 && #[trigger] carries(rows@, tokens@, k, term) by {
                if lists(before, term) {
                    let k = choose|k: int| 0 <= k < i && #[trigger] carries(rows@, tokens@, k, term);
                    assert(carries(rows@, tokens@, k, term));
                }
                if carries(rows@, tokens@, i as int, term) {
                    assert(lists(tokens@[i as int]@, term));
                    assert(lists(out@, term));
                }
                if exists|k: int| 0 <= k < i + 1 && #[trigger] carries(rows@, tokens@, k, term) {
                    let k = choose|k: int|
                        0 <= k < i + 1 && #[trigger] carries(rows@, tokens@, k, term);
                    if k < i {
                        assert(lists(before, term));
                    }
                }
            }
        }
        i += 1;
    }
    out
}

/// Whether token list `mine`, up to `j`, holds `term`.
spec fn held_before(mine: Seq<String>, j: int, term: Seq<char>) -> bool {
    exists|k: int| 0 <= k < j && (#[trigger] mine[k])@ == term
}

/// The text layer of a column: `tokens` holds the analysed tokens of each row's prose, in the order
/// of `rows`. `None` where no row carries prose.
pub fn text_layer(column: &String, rows: &Vec<(u32, &Scalar)>, tokens: &Vec<Vec<String>>) -> (out:
    Result<Option<TextLayer>, FlushFailed>)
    requires
        tokens@.len() == rows@.len(),
    ensures
        out is Err <==> first_some(rows@, |r: (u32, &Scalar)| text_failure(*r.1, *column)) is Some,
        out matches Err(why) ==> first_some(
            rows@,
            |r: (u32, &Scalar)| text_failure(*r.1, *column),
        ) == Some(why),
        out matches Ok(layer) ==> text_describes(rows@, tokens@, layer),
{
    let presence = prose_presence(column, rows)?;
    if bitmap::is_empty(&presence) {
        return Ok(None);
    }
    let terms = sorted_distinct_strings(all_tokens(rows, tokens));
    let mut postings: Vec<Vec<u32>> = Vec::new();
    let mut t: usize = 0;
    while t < terms.len()
        invariant
            t <= terms@.len(),
            postings@.len() == t,
            forall|k: int| 0 <= k < t ==> (#[trigger] postings@[k])@ == Seq::<u32>::empty(),
        decreases terms@.len() - t,
    {
        postings.push(Vec::new());
        t += 1;
    }
    let mut i: usize = 0;
    while i < rows.len()
        invariant
            i <= rows@.len(),
            tokens@.len() == rows@.len(),
            strictly_sorted(terms@),
            forall|term: Seq<char>|
                lists(terms@, term) == exists|k: int|
                    0 <= k < rows@.len() && #[trigger] carries(rows@, tokens@, k, term),
            postings@.len() == terms@.len(),
            forall|k: int|
                0 <= k < terms@.len() ==> (#[trigger] postings@[k])@ == carriers(
                    rows@,
                    tokens@,
                    i as nat,
                    terms@[k]@,
                ),
        decreases rows@.len() - i,
    {
        if let Scalar::Utf8(_) = rows[i].1 {
            let entity: u32 = rows[i].0;
            let mine = &tokens[i];
            let ghost start = postings@;
            let mut j: usize = 0;
            while j < mine.len()
                invariant
                    j <= mine@.len(),
                    i < rows@.len(),
                    tokens@.len() == rows@.len(),
                    *mine == tokens@[i as int],
                    *rows@[i as int].1 is Utf8,
                    entity == rows@[i as int].0,
                    strictly_sorted(terms@),
                    forall|term: Seq<char>|
                        lists(terms@, term) == exists|k: int|
                            0 <= k < rows@.len() && #[trigger] carries(rows@, tokens@, k, term),
                    start.len() == terms@.len(),
                    postings@.len() == terms@.len(),
                    forall|k: int|
                        0 <= k < terms@.len() ==> (#[trigger] postings@[k])@ == if held_before(
                            mine@,
                            j as int,
                            terms@[k]@,
                        ) {
                            with_entity(start[k]@, entity)
                        } else {
                            start[k]@
                        },
                decreases mine@.len() - j,
            {
                let token = &mine[j];
                proof {
                    assert(token@ == mine@[j as int]@);
                    assert(lists(mine@, token@));
                    assert(carries(rows@, tokens@, i as int, token@));
                    assert(lists(terms@, token@));
                    let k = choose|k: int| 0 <= k < terms@.len() && (#[trigger] terms@[k])@ == token@;
                    <String as Ranked>::precedes_total(terms@[k], *token);
                    assert(ties(terms@[k], *token));
                    assert(holds_tie(terms@, *token));
                }
                let ghost before = postings@;
                if let Some(at) = search(&terms, token) {
                    proof {
                        lemma_string_ties_are_equal(terms@[at as int], *token);
                    }
                    let last: Option<u32> = if postings[at].len() > 0 {
                        Some(postings[at][postings[at].len() - 1])
                    } else {
                        None
                    };
                    if last != Some(entity) {
                        let mut list = postings[at].clone();
                        list.push(entity);
                        postings.set(at, list);
                    }
                    proof {
                        assert forall|k: int| 0 <= k < terms@.len() implies (
                        #[trigger] postings@[k])@ == if held_before(mine@, j + 1, terms@[k]@) {
                            with_entity(start[k]@, entity)
                        } else {
                            start[k]@
                        } by {
                            assert(before[k]@ == if held_before(mine@, j as int, terms@[k]@) {
                                with_entity(start[k]@, entity)
                            } else {
                                start[k]@
                            });
                            if held_before(mine@, j as int, terms@[k]@) {
                                let m = choose|m: int|
                                    0 <= m < j && (#[trigger] mine@[m])@ == terms@[k]@;
                                assert(mine@[m]@ == terms@[k]@);
                            }
                            if k == at {
                                assert(mine@[j as int]@ == terms@[k]@);
                            } else {
                                if terms@[k]@ == token@ {
                                    let (a, b) = if k < at {
                                        (k, at as int)
                                    } else {
                                        (at as int, k)
                                    };
                                    assert(terms@[a].precedes(terms@[b]) && !terms@[b].precedes(
                                        terms@[a],
                                    ));
                                    <String as Ranked>::precedes_total(terms@[a], terms@[b]);
                                }
                                if held_before(mine@, j + 1, terms@[k]@) {
                                    let m = choose|m: int|
                                        0 <= m < j + 1 && (#[trigger] mine@[m])@ == terms@[k]@;
                                    assert(m < j);
                                }
                            }
                        }
                    }
                }
                j += 1;
            }
            proof {
                assert forall|k: int| 0 <= k < terms@.len() implies (#[trigger] postings@[k])@
                    == carriers(rows@, tokens@, (i + 1) as nat, terms@[k]@) by {
                    assert(start[k]@ == carriers(rows@, tokens@, i as nat, terms@[k]@));
                    assert(held_before(mine@, mine@.len() as int, terms@[k]@) == lists(
                        mine@,
                        terms@[k]@,
                    ));
                }
            }
        }
        i += 1;
    }
    Ok(Some(TextLayer { terms, postings, presence }))
}

/// The entities that carry prose, or the failure of the first cell that is not text.
fn prose_presence(column: &String, rows: &Vec<(u32, &Scalar)>) -> (out: Result<Bitmap, FlushFailed>)
    ensures
        out matches Ok(presence) ==> bits(presence) == prose_entities(rows@),
        out is Err <==> first_some(rows@, |r: (u32, &Scalar)| text_failure(*r.1, *column)) is Some,
        out matches Err(why) ==> first_some(
            rows@,
            |r: (u32, &Scalar)| text_failure(*r.1, *column),
        ) == Some(why),
{
    let mut presence = bitmap::empty();
    let ghost f = |r: (u32, &Scalar)| text_failure(*r.1, *column);
    let mut i: usize = 0;
    assert(bits(presence) =~= prose_entities(rows@.take(0)));
    while i < rows.len()
        invariant
            i <= rows@.len(),
            f == |r: (u32, &Scalar)| text_failure(*r.1, *column),
            first_some(rows@.take(i as int), f) is None,
            bits(presence) == prose_entities(rows@.take(i as int)),
        decreases rows@.len() - i,
    {
        let row = rows[i];
        let ghost before = rows@.take(i as int);
        let ghost now = rows@.take(i + 1);
        proof {
            lemma_first_some_step(rows@, i as int, f);
            assert forall|e: u32| prose_entities(now).contains(e) == (prose_entities(
                before,
            ).contains(e) || (row.0 == e && *row.1 is Utf8)) by {
                if prose_entities(before).contains(e) {
                    let k = choose|k: int|
                        0 <= k < before.len() && (#[trigger] before[k]).0 == e
                            && *before[k].1 is Utf8;
                    assert(now[k] == before[k]);
                }
                if prose_entities(now).contains(e) {
                    let k = choose|k: int|
                        0 <= k < now.len() && (#[trigger] now[k]).0 == e && *now[k].1 is Utf8;
                    if k < i {
                        assert(before[k] == now[k]);
                    }
                }
                assert(now[i as int] == row);
            }
        }
        match row.1 {
            Scalar::Utf8(_) => {
                bitmap::insert(&mut presence, row.0);
            },
            Scalar::Null => {},
            other => {
                proof {
                    lemma_first_some_stays(rows@, i + 1, f);
                }
                return Err(FlushFailed::NotText { column: column.clone(), cell: other.copy() });
            },
        }
        assert(bits(presence) =~= prose_entities(now));
        i += 1;
    }
    assert(rows@.take(i as int) =~= rows@);
    Ok(presence)
}

/// Where rows are in entity order, a term's list is ascending and holds exactly the entities whose
/// prose carries the term, each once.
pub proof fn law_a_posting_is_the_entities_that_carry_the_term(
    rows: Seq<(u32, &Scalar)>,
    tokens: Seq<Vec<String>>,
    term: Seq<char>,
)
    requires
        tokens.len() == rows.len(),
        forall|i: int, j: int| 0 <= i < j < rows.len() ==> rows[i].0 <= rows[j].0,
    ensures
        ascending(carriers(rows, tokens, rows.len(), term)),
        forall|e: u32|
            carriers(rows, tokens, rows.len(), term).contains(e) == exists|i: int|
                0 <= i < rows.len() && #[trigger] carries(rows, tokens, i, term) && rows[i].0 == e,
{
    lemma_carriers(rows, tokens, rows.len(), term);
}

proof fn lemma_carriers(
    rows: Seq<(u32, &Scalar)>,
    tokens: Seq<Vec<String>>,
    n: nat,
    term: Seq<char>,
)
    requires
        n <= rows.len(),
        tokens.len() == rows.len(),
        forall|i: int, j: int| 0 <= i < j < rows.len() ==> rows[i].0 <= rows[j].0,
    ensures
        ascending(carriers(rows, tokens, n, term)),
        forall|e: u32|
            carriers(rows, tokens, n, term).contains(e) == exists|i: int|
                0 <= i < n && #[trigger] carries(rows, tokens, i, term) && rows[i].0 == e,
        forall|k: int|
            0 <= k < carriers(rows, tokens, n, term).len() ==> n > 0 && #[trigger] carriers(
                rows,
                tokens,
                n,
                term,
            )[k] <= rows[n - 1].0,
    decreases n,
{
    if n > 0 {
        let m = (n - 1) as nat;
        lemma_carriers(rows, tokens, m, term);
        let before = carriers(rows, tokens, m, term);
        let now = carriers(rows, tokens, n, term);
        let entity = rows[n - 1].0;
        assert forall|k: int| 0 <= k < now.len() implies #[trigger] now[k] <= rows[n - 1].0 by {
            if k < before.len() {
                assert(now[k] == before[k]);
                assert(before[k] <= rows[m - 1].0);
                assert(rows[m - 1].0 <= rows[n - 1].0);
            }
        }
        if carries(rows, tokens, n - 1, term) && now.len() > before.len() {
            assert forall|k: int| 0 <= k < before.len() implies before[k] < entity by {
                assert(before[k] <= rows[m - 1].0);
                assert(rows[m - 1].0 <= rows[n - 1].0);
                if before[k] == entity {
                    assert(before[k] <= before.last());
                    assert(before[before.len() - 1] <= rows[m - 1].0);
                }
            }
            assert forall|i: int, j: int| 0 <= i < j < now.len() implies now[i] < now[j] by {
                assert(now[i] == before[i]);
            }
        }
        assert forall|e: u32|
            now.contains(e) == exists|i: int|
                0 <= i < n && #[trigger] carries(rows, tokens, i, term) && rows[i].0 == e by {
            if now.contains(e) {
                let k = choose|k: int| 0 <= k < now.len() && now[k] == e;
                if k < before.len() {
                    assert(before[k] == e);
                    assert(before.contains(e));
                    let i = choose|i: int|
                        0 <= i < m && #[trigger] carries(rows, tokens, i, term) && rows[i].0 == e;
                    assert(carries(rows, tokens, i, term));
                } else {
                    assert(carries(rows, tokens, n - 1, term));
                }
            }
            if exists|i: int|
                0 <= i < n && #[trigger] carries(rows, tokens, i, term) && rows[i].0 == e {
                let i = choose|i: int|
                    0 <= i < n && #[trigger] carries(rows, tokens, i, term) && rows[i].0 == e;
                if i < m {
                    assert(before.contains(e));
                    let k = choose|k: int| 0 <= k < before.len() && before[k] == e;
                    assert(now[k] == e);
                } else {
                    assert(now[now.len() - 1] == e);
                }
            }
        }
    }
}

/// A text layer holds the prose it was made of: an entity is present exactly where one of its cells
/// is text, a term is listed exactly where some such cell's tokens hold it, and where the rows are in
/// entity order, a term's list holds an entity exactly where a text cell of that entity does.
pub proof fn law_a_text_layer_holds_its_prose(
    rows: Seq<(u32, &Scalar)>,
    tokens: Seq<Vec<String>>,
    layer: TextLayer,
    k: int,
    entity: u32,
)
    requires
        tokens.len() == rows.len(),
        forall|i: int, j: int| 0 <= i < j < rows.len() ==> rows[i].0 <= rows[j].0,
        text_describes(rows, tokens, Some(layer)),
        0 <= k < layer.terms@.len(),
    ensures
        bits(layer.presence).contains(entity) <==> exists|i: int|
            0 <= i < rows.len() && (#[trigger] rows[i]).0 == entity && *rows[i].1 is Utf8,
        layer.postings@.len() == layer.terms@.len(),
        layer.postings@[k]@.contains(entity) <==> exists|i: int, t: int|
            0 <= i < rows.len() && rows[i].0 == entity && *rows[i].1 is Utf8 && 0 <= t
                < tokens[i]@.len() && (#[trigger] tokens[i]@[t])@ == layer.terms@[k]@,
        forall|a: int, b: int|
            0 <= a < b < layer.postings@[k]@.len() ==> layer.postings@[k]@[a]
                < layer.postings@[k]@[b],
        forall|i: int, t: int|
            0 <= i < rows.len() && *rows[i].1 is Utf8 && 0 <= t < tokens[i]@.len() ==> exists|
                l: int,
            |
                0 <= l < layer.terms@.len() && (#[trigger] layer.terms@[l])@ == (
                #[trigger] tokens[i]@[t])@,
{
    let term = layer.terms@[k]@;
    law_a_posting_is_the_entities_that_carry_the_term(rows, tokens, term);
    assert(layer.postings@[k]@ == carriers(rows, tokens, rows.len(), layer.terms@[k]@));
    assert(carriers(rows, tokens, rows.len(), term).contains(entity) == exists|i: int|
        0 <= i < rows.len() && #[trigger] carries(rows, tokens, i, term) && rows[i].0 == entity);
    if layer.postings@[k]@.contains(entity) {
        let i = choose|i: int|
            0 <= i < rows.len() && #[trigger] carries(rows, tokens, i, term) && rows[i].0 == entity;
        let t = choose|t: int| 0 <= t < tokens[i]@.len() && (#[trigger] tokens[i]@[t])@ == term;
        assert(tokens[i]@[t]@ == layer.terms@[k]@);
    }
    if exists|i: int, t: int|
        0 <= i < rows.len() && rows[i].0 == entity && *rows[i].1 is Utf8 && 0 <= t < tokens[i]@.len()
            && (#[trigger] tokens[i]@[t])@ == layer.terms@[k]@ {
        let (i, t) = choose|i: int, t: int|
            0 <= i < rows.len() && rows[i].0 == entity && *rows[i].1 is Utf8 && 0 <= t
                < tokens[i]@.len() && (#[trigger] tokens[i]@[t])@ == layer.terms@[k]@;
        assert(carries(rows, tokens, i, term));
    }
    assert forall|i: int, t: int|
        0 <= i < rows.len() && *rows[i].1 is Utf8 && 0 <= t < tokens[i]@.len() implies exists|
        l: int,
    |
        0 <= l < layer.terms@.len() && (#[trigger] layer.terms@[l])@ == (
        #[trigger] tokens[i]@[t])@ by {
        assert(carries(rows, tokens, i, tokens[i]@[t]@));
        assert(lists(layer.terms@, tokens[i]@[t]@));
    }
}

/// There is a text layer exactly where some cell is text, and a column that holds a cell of another
/// kind has none.
pub proof fn law_there_is_a_text_layer_where_there_is_prose(
    rows: Seq<(u32, &Scalar)>,
    tokens: Seq<Vec<String>>,
    layer: Option<TextLayer>,
)
    requires
        text_describes(rows, tokens, layer),
    ensures
        layer is Some <==> exists|i: int| 0 <= i < rows.len() && *(#[trigger] rows[i]).1 is Utf8,
{
    if exists|i: int| 0 <= i < rows.len() && *(#[trigger] rows[i]).1 is Utf8 {
        let i = choose|i: int| 0 <= i < rows.len() && *(#[trigger] rows[i]).1 is Utf8;
        assert(prose_entities(rows).contains(rows[i].0));
    }
    if layer is Some {
        let e = prose_entities(rows).choose();
        assert(exists|e: u32| prose_entities(rows).contains(e)) by {
            if forall|e: u32| !prose_entities(rows).contains(e) {
                assert(prose_entities(rows) =~= Set::empty());
            }
        }
    }
}

} // verus!
