//! The view gate: which views and which groups a principal may reach.
//!
//! Two labels decide one view: its group's, which is the outer bound over every view of the group,
//! and the view's own. They are conjunctive, so a view's gate narrows its group's and never widens
//! it. A label is satisfied where one of the terms it resolves to is among the principal's; no label
//! is no gate. A label that cannot be read fails closed.
//!
//! Every view of every group is evaluated once, so a request asks one membership question and a
//! gate-failed name costs what a name nobody declared costs.

use vstd::prelude::*;

use crate::text::{find, lists, same};

verus! {

/// Probed for a name that resolves to no view. A view id is never empty, so it is never reached.
pub const NO_SUCH_VIEW: &'static str = "";

/// A group of views.
#[derive(Debug)]
pub struct GateGroup {
    pub name: String,
    /// The group's label; none is public.
    pub visibility: Option<String>,
    /// The keys of its views.
    pub keys: Vec<String>,
}

/// A view.
#[derive(Debug)]
pub struct GateView {
    pub id: String,
    /// The view's own label; none is public.
    pub visibility: Option<String>,
}

/// What a label resolves to: the terms of its descriptors, where the dictionary carries them, or
/// nothing where the label cannot be read.
#[derive(Debug)]
pub struct LabelTerms {
    pub label: String,
    pub terms: Option<Vec<Option<u32>>>,
}

/// Whether a label's terms meet the ones a principal satisfies.
pub open spec fn meets(answer: LabelTerms, satisfied: Seq<u32>) -> bool {
    answer.terms matches Some(terms) && exists|k: int|
        0 <= k < terms@.len() && (#[trigger] terms@[k]) is Some && satisfied.contains(terms@[k]->0)
}

/// Whether a label is satisfied: none is, and one is where what it resolves to meets the principal's
/// terms.
pub open spec fn satisfies(
    label: Option<String>,
    answers: Seq<LabelTerms>,
    satisfied: Seq<u32>,
) -> bool {
    label matches Some(label) ==> exists|i: int|
        0 <= i < answers.len() && (#[trigger] answers[i]).label@ == label@ && meets(
            answers[i],
            satisfied,
        )
}

/// The id of a group's view.
pub open spec fn view_id(group: Seq<char>, key: Seq<char>) -> Seq<char> {
    group + ":"@ + key
}

/// Whether a view id is of a group.
pub open spec fn owns(group: GateGroup, id: Seq<char>) -> bool {
    exists|k: int|
        0 <= k < group.keys@.len() && view_id(group.name@, (#[trigger] group.keys@[k])@) == id
}

/// The group a view id belongs to, where it belongs to one.
pub open spec fn owner_of(groups: Seq<GateGroup>, id: Seq<char>) -> Option<Seq<char>>
    decreases groups.len(),
{
    if groups.len() == 0 {
        None
    } else if owns(groups.last(), id) {
        Some(groups.last().name@)
    } else {
        owner_of(groups.drop_last(), id)
    }
}

/// Whether a group is one the principal may reach.
pub open spec fn reaches_group(
    groups: Seq<GateGroup>,
    answers: Seq<LabelTerms>,
    satisfied: Seq<u32>,
    name: Seq<char>,
) -> bool {
    exists|g: int|
        0 <= g < groups.len() && (#[trigger] groups[g]).name@ == name && satisfies(
            groups[g].visibility,
            answers,
            satisfied,
        )
}

/// Whether a view passes its own gate and its group's.
pub open spec fn passes_view(
    view: GateView,
    groups: Seq<GateGroup>,
    answers: Seq<LabelTerms>,
    satisfied: Seq<u32>,
) -> bool {
    &&& satisfies(view.visibility, answers, satisfied)
    &&& owner_of(groups, view.id@) matches Some(group) ==> reaches_group(
        groups,
        answers,
        satisfied,
        group,
    )
}

/// Whether a view id is one the principal may reach.
pub open spec fn reaches_view(
    views: Seq<GateView>,
    groups: Seq<GateGroup>,
    answers: Seq<LabelTerms>,
    satisfied: Seq<u32>,
    id: Seq<char>,
) -> bool {
    exists|v: int|
        0 <= v < views.len() && (#[trigger] views[v]).id@ == id && passes_view(
            views[v],
            groups,
            answers,
            satisfied,
        )
}

/// Each text stands in the list once.
pub open spec fn once(list: Seq<String>) -> bool {
    forall|i: int, j: int| 0 <= i < j < list.len() ==> (#[trigger] list[i])@ != (#[trigger] list[j])@
}

/// The views and the groups one session may reach.
#[derive(Clone, Debug, Default)]
pub struct VisibleViews {
    pub views: Vec<String>,
    pub groups: Vec<String>,
}

impl VisibleViews {
    /// Each name is held once.
    pub open spec fn wf(&self) -> bool {
        once(self.views@) && once(self.groups@)
    }

    /// Whether a view id is one this session may reach.
    pub fn contains_view(&self, id: &str) -> (yes: bool)
        ensures
            yes == lists(self.views@, id@),
    {
        find(&self.views, id).is_some()
    }

    /// Whether a group is one this session may reach.
    pub fn contains_group(&self, name: &str) -> (yes: bool)
        ensures
            yes == lists(self.groups@, name@),
    {
        find(&self.groups, name).is_some()
    }

    /// How many views this session may reach.
    pub fn len(&self) -> (count: usize)
        ensures
            count == self.views@.len(),
    {
        self.views.len()
    }

    /// Whether this session may reach no view.
    pub fn is_empty(&self) -> (yes: bool)
        ensures
            yes == (self.views@.len() == 0),
    {
        self.views.len() == 0
    }
}

/// A text onto a list that does not hold it.
fn add_once(list: &mut Vec<String>, text: &str)
    requires
        once(old(list)@),
    ensures
        once(final(list)@),
        forall|other: Seq<char>| #[trigger]
            lists(final(list)@, other) <==> lists(old(list)@, other) || other == text@,
{
    let ghost before = list@;
    if find(list, text).is_none() {
        list.push(String::from_str(text));
        proof {
            assert forall|i: int, j: int| 0 <= i < j < list@.len() implies (#[trigger] list@[i])@
                != (#[trigger] list@[j])@ by {
                if j == before.len() {
                    assert(before[i]@ != text@);
                }
            }
            assert forall|other: Seq<char>| #[trigger]
                lists(list@, other) <==> lists(before, other) || other == text@ by {
                if lists(before, other) {
                    let k = choose|k: int| 0 <= k < before.len() && (#[trigger] before[k])@ == other;
                    assert(list@[k]@ == other);
                }
                if other == text@ {
                    assert(list@[before.len() as int]@ == other);
                }
                if lists(list@, other) {
                    let k = choose|k: int| 0 <= k < list@.len() && (#[trigger] list@[k])@ == other;
                    if k < before.len() {
                        assert(before[k]@ == other);
                    }
                }
            }
        }
    }
}

/// Whether a list holds every label a view or a group carries, each once.
pub open spec fn labelled(groups: Seq<GateGroup>, views: Seq<GateView>, out: Seq<String>) -> bool {
    &&& once(out)
    &&& forall|text: Seq<char>| #[trigger]
        lists(out, text) <==> names_label(groups, views, text)
}

/// Every label a view or a group carries, each once.
pub fn labels(groups: &Vec<GateGroup>, views: &Vec<GateView>) -> (out: Vec<String>)
    ensures
        labelled(groups@, views@, out@),
{
    let mut out: Vec<String> = Vec::new();
    let mut g: usize = 0;
    while g < groups.len()
        invariant
            g <= groups@.len(),
            once(out@),
            forall|text: Seq<char>| #[trigger]
                lists(out@, text) <==> group_label(groups@, text, g as int),
        decreases groups@.len() - g,
    {
        if let Some(label) = &groups[g].visibility {
            add_once(&mut out, label.as_str());
            assert(groups@[g as int].visibility is Some);
        }
        proof {
            lemma_group_label(groups@, g as int);
        }
        g += 1;
    }
    let mut v: usize = 0;
    while v < views.len()
        invariant
            v <= views@.len(),
            once(out@),
            forall|text: Seq<char>| #[trigger]
                lists(out@, text) <==> group_label(groups@, text, groups@.len() as int)
                    || view_label(views@, text, v as int),
        decreases views@.len() - v,
    {
        if let Some(label) = &views[v].visibility {
            add_once(&mut out, label.as_str());
        }
        proof {
            lemma_view_label(views@, v as int);
        }
        v += 1;
    }
    out
}

/// Whether one of the first `n` groups has a label.
pub open spec fn group_label(groups: Seq<GateGroup>, label: Seq<char>, n: int) -> bool {
    exists|g: int|
        0 <= g < n && (#[trigger] groups[g]).visibility is Some && groups[g].visibility->0@ == label
}

/// Whether one of the first `n` views has a label.
pub open spec fn view_label(views: Seq<GateView>, label: Seq<char>, n: int) -> bool {
    exists|v: int|
        0 <= v < n && (#[trigger] views[v]).visibility is Some && views[v].visibility->0@ == label
}

/// Whether a group or a view has a label.
pub open spec fn names_label(
    groups: Seq<GateGroup>,
    views: Seq<GateView>,
    label: Seq<char>,
) -> bool {
    group_label(groups, label, groups.len() as int) || view_label(views, label, views.len() as int)
}

proof fn lemma_group_label(groups: Seq<GateGroup>, n: int)
    requires
        0 <= n < groups.len(),
    ensures
        forall|label: Seq<char>| #[trigger]
            group_label(groups, label, n + 1) <==> group_label(groups, label, n) || (
            groups[n].visibility is Some && groups[n].visibility->0@ == label),
{
    assert forall|label: Seq<char>| #[trigger]
        group_label(groups, label, n + 1) <==> group_label(groups, label, n) || (
        groups[n].visibility is Some && groups[n].visibility->0@ == label) by {
        if group_label(groups, label, n) {
            let g = choose|g: int|
                0 <= g < n && (#[trigger] groups[g]).visibility is Some && groups[g].visibility->0@
                    == label;
            assert(groups[g].visibility is Some);
        }
        if groups[n].visibility is Some && groups[n].visibility->0@ == label {
            assert(groups[n].visibility is Some);
        }
    }
}

proof fn lemma_view_label(views: Seq<GateView>, n: int)
    requires
        0 <= n < views.len(),
    ensures
        forall|label: Seq<char>| #[trigger]
            view_label(views, label, n + 1) <==> view_label(views, label, n) || (
            views[n].visibility is Some && views[n].visibility->0@ == label),
{
    assert forall|label: Seq<char>| #[trigger]
        view_label(views, label, n + 1) <==> view_label(views, label, n) || (
        views[n].visibility is Some && views[n].visibility->0@ == label) by {
        if view_label(views, label, n) {
            let v = choose|v: int|
                0 <= v < n && (#[trigger] views[v]).visibility is Some && views[v].visibility->0@
                    == label;
            assert(views[v].visibility is Some);
        }
        if views[n].visibility is Some && views[n].visibility->0@ == label {
            assert(views[n].visibility is Some);
        }
    }
}

/// Whether a list of terms holds a term.
fn holds_term(terms: &Vec<u32>, term: u32) -> (yes: bool)
    ensures
        yes == terms@.contains(term),
{
    let mut i: usize = 0;
    while i < terms.len()
        invariant
            i <= terms@.len(),
            forall|k: int| 0 <= k < i ==> terms@[k] != term,
        decreases terms@.len() - i,
    {
        if terms[i] == term {
            assert(terms@[i as int] == term);
            return true;
        }
        i += 1;
    }
    false
}

/// Whether a label's terms meet the ones a principal satisfies: intersection, so that a label of
/// several alternatives is satisfied by any of them.
pub fn term_met(answer: &LabelTerms, satisfied: &Vec<u32>) -> (yes: bool)
    ensures
        yes == meets(*answer, satisfied@),
{
    match &answer.terms {
        None => false,
        Some(terms) => {
            let mut k: usize = 0;
            while k < terms.len()
                invariant
                    k <= terms@.len(),
                    answer.terms == Some(*terms),
                    forall|j: int|
                        0 <= j < k ==> !((#[trigger] terms@[j]) is Some && satisfied@.contains(
                            terms@[j]->0,
                        )),
                decreases terms@.len() - k,
            {
                if let Some(term) = terms[k] {
                    if holds_term(satisfied, term) {
                        assert(terms@[k as int] is Some && satisfied@.contains(
                            terms@[k as int]->0,
                        ));
                        return true;
                    }
                }
                k += 1;
            }
            false
        },
    }
}

/// Whether a label is satisfied.
pub fn passes(label: &Option<String>, answers: &Vec<LabelTerms>, satisfied: &Vec<u32>) -> (yes: bool)
    ensures
        yes == satisfies(*label, answers@, satisfied@),
{
    match label {
        None => true,
        Some(text) => {
            let mut i: usize = 0;
            while i < answers.len()
                invariant
                    i <= answers@.len(),
                    *label == Some(*text),
                    forall|j: int|
                        0 <= j < i ==> !((#[trigger] answers@[j]).label@ == text@ && meets(
                            answers@[j],
                            satisfied@,
                        )),
                decreases answers@.len() - i,
            {
                if same(answers[i].label.as_str(), text.as_str()) && term_met(
                    &answers[i],
                    satisfied,
                ) {
                    assert(answers@[i as int].label@ == text@ && meets(
                        answers@[i as int],
                        satisfied@,
                    ));
                    return true;
                }
                i += 1;
            }
            false
        },
    }
}

/// Whether a view id is of a group.
fn is_owned(group: &GateGroup, id: &str) -> (yes: bool)
    ensures
        yes == owns(*group, id@),
{
    let mut k: usize = 0;
    while k < group.keys.len()
        invariant
            k <= group.keys@.len(),
            forall|j: int|
                0 <= j < k ==> view_id(group.name@, (#[trigger] group.keys@[j])@) != id@,
        decreases group.keys@.len() - k,
    {
        let own = group.name.clone().concat(":").concat(group.keys[k].as_str());
        if same(own.as_str(), id) {
            assert(view_id(group.name@, group.keys@[k as int]@) == id@);
            return true;
        }
        k += 1;
    }
    false
}

/// Where the group a view id belongs to stands.
fn find_owner(groups: &Vec<GateGroup>, id: &str) -> (at: Option<usize>)
    ensures
        at is None <==> owner_of(groups@, id@) is None,
        at matches Some(g) ==> g < groups@.len() && owner_of(groups@, id@) == Some(
            groups@[g as int].name@,
        ),
{
    let mut n: usize = groups.len();
    assert(groups@.take(n as int) =~= groups@);
    while n > 0
        invariant
            n <= groups@.len(),
            owner_of(groups@, id@) == owner_of(groups@.take(n as int), id@),
        decreases n,
    {
        n -= 1;
        assert(groups@.take(n + 1).last() == groups@[n as int]);
        assert(groups@.take(n + 1).drop_last() =~= groups@.take(n as int));
        if is_owned(&groups[n], id) {
            return Some(n);
        }
    }
    None
}

/// Whether the views and the groups reached are those whose gates a principal's terms pass.
pub open spec fn resolves(
    groups: Seq<GateGroup>,
    views: Seq<GateView>,
    answers: Seq<LabelTerms>,
    satisfied: Seq<u32>,
    visible: VisibleViews,
) -> bool {
    &&& visible.wf()
    &&& forall|name: Seq<char>| #[trigger]
        lists(visible.groups@, name) <==> reaches_group(groups, answers, satisfied, name)
    &&& forall|id: Seq<char>| #[trigger]
        lists(visible.views@, id) <==> reaches_view(views, groups, answers, satisfied, id)
}

/// Evaluate every view of every group against a principal's terms. `answers` holds what each label
/// resolves to.
pub fn resolve(
    groups: &Vec<GateGroup>,
    views: &Vec<GateView>,
    answers: &Vec<LabelTerms>,
    satisfied: &Vec<u32>,
) -> (visible: VisibleViews)
    ensures
        resolves(groups@, views@, answers@, satisfied@, visible),
{
    let mut reached: Vec<String> = Vec::new();
    let mut g: usize = 0;
    while g < groups.len()
        invariant
            g <= groups@.len(),
            once(reached@),
            forall|name: Seq<char>| #[trigger]
                lists(reached@, name) <==> reaches_group(
                    groups@.take(g as int),
                    answers@,
                    satisfied@,
                    name,
                ),
        decreases groups@.len() - g,
    {
        let ghost before = reached@;
        if passes(&groups[g].visibility, answers, satisfied) {
            add_once(&mut reached, groups[g].name.as_str());
        }
        proof {
            let was = groups@.take(g as int);
            let now = groups@.take(g + 1);
            assert forall|name: Seq<char>| #[trigger]
                lists(reached@, name) <==> reaches_group(now, answers@, satisfied@, name) by {
                assert(lists(before, name) <==> reaches_group(was, answers@, satisfied@, name));
                if reaches_group(was, answers@, satisfied@, name) {
                    let k = choose|k: int|
                        0 <= k < was.len() && (#[trigger] was[k]).name@ == name && satisfies(
                            was[k].visibility,
                            answers@,
                            satisfied@,
                        );
                    assert(now[k] == was[k]);
                }
                if reaches_group(now, answers@, satisfied@, name) {
                    let k = choose|k: int|
                        0 <= k < now.len() && (#[trigger] now[k]).name@ == name && satisfies(
                            now[k].visibility,
                            answers@,
                            satisfied@,
                        );
                    if k < g {
                        assert(was[k] == now[k]);
                    }
                }
                assert(now[g as int] == groups@[g as int]);
            }
        }
        g += 1;
    }
    assert(groups@.take(g as int) =~= groups@);
    let mut open: Vec<String> = Vec::new();
    let mut v: usize = 0;
    while v < views.len()
        invariant
            v <= views@.len(),
            once(reached@),
            once(open@),
            forall|name: Seq<char>| #[trigger]
                lists(reached@, name) <==> reaches_group(groups@, answers@, satisfied@, name),
            forall|id: Seq<char>| #[trigger]
                lists(open@, id) <==> reaches_view(
                    views@.take(v as int),
                    groups@,
                    answers@,
                    satisfied@,
                    id,
                ),
        decreases views@.len() - v,
    {
        let ghost before = open@;
        let mut shown = passes(&views[v].visibility, answers, satisfied);
        if shown {
            if let Some(at) = find_owner(groups, views[v].id.as_str()) {
                shown = find(&reached, groups[at].name.as_str()).is_some();
            }
        }
        assert(shown == passes_view(views@[v as int], groups@, answers@, satisfied@));
        if shown {
            add_once(&mut open, views[v].id.as_str());
        }
        proof {
            let was = views@.take(v as int);
            let now = views@.take(v + 1);
            assert forall|id: Seq<char>| #[trigger]
                lists(open@, id) <==> reaches_view(now, groups@, answers@, satisfied@, id) by {
                assert(lists(before, id) <==> reaches_view(
                    was,
                    groups@,
                    answers@,
                    satisfied@,
                    id,
                ));
                if reaches_view(was, groups@, answers@, satisfied@, id) {
                    let k = choose|k: int|
                        0 <= k < was.len() && (#[trigger] was[k]).id@ == id && passes_view(
                            was[k],
                            groups@,
                            answers@,
                            satisfied@,
                        );
                    assert(now[k] == was[k]);
                }
                if reaches_view(now, groups@, answers@, satisfied@, id) {
                    let k = choose|k: int|
                        0 <= k < now.len() && (#[trigger] now[k]).id@ == id && passes_view(
                            now[k],
                            groups@,
                            answers@,
                            satisfied@,
                        );
                    if k < v {
                        assert(was[k] == now[k]);
                    }
                }
                assert(now[v as int] == views@[v as int]);
            }
        }
        v += 1;
    }
    assert(views@.take(v as int) =~= views@);
    VisibleViews { views: open, groups: reached }
}

/// A view's gate narrows its group's and never widens it: a view of a group that is reached is of a
/// group that is reached.
pub proof fn law_a_view_is_within_its_groups_gate(
    views: Seq<GateView>,
    groups: Seq<GateGroup>,
    answers: Seq<LabelTerms>,
    satisfied: Seq<u32>,
    id: Seq<char>,
)
    requires
        reaches_view(views, groups, answers, satisfied, id),
        owner_of(groups, id) is Some,
    ensures
        reaches_group(groups, answers, satisfied, owner_of(groups, id)->0),
{
}

/// A gate fails closed: a label that cannot be read is satisfied by nobody.
pub proof fn law_an_unread_label_is_unsatisfied(
    label: String,
    answers: Seq<LabelTerms>,
    satisfied: Seq<u32>,
)
    requires
        forall|i: int|
            0 <= i < answers.len() && (#[trigger] answers[i]).label@ == label@ ==> answers[i].terms is None,
    ensures
        !satisfies(Some(label), answers, satisfied),
{
}

proof fn lemma_satisfies(label: Option<String>, answers: Seq<LabelTerms>, satisfied: Seq<u32>)
    ensures
        satisfies(label, answers, satisfied) <==> (label is Some ==> exists|i: int, k: int|
            0 <= i < answers.len() && answers[i].label@ == label->0@ && answers[i].terms is Some && 0
                <= k < answers[i].terms->0@.len() && (#[trigger] answers[i].terms->0@[k]) is Some
                && satisfied.contains(answers[i].terms->0@[k]->0)),
{
    if label is Some {
        if satisfies(label, answers, satisfied) {
            let i = choose|i: int|
                0 <= i < answers.len() && (#[trigger] answers[i]).label@ == label->0@ && meets(
                    answers[i],
                    satisfied,
                );
            let terms = answers[i].terms->0@;
            let k = choose|k: int|
                0 <= k < terms.len() && (#[trigger] terms[k]) is Some && satisfied.contains(
                    terms[k]->0,
                );
            assert(answers[i].terms->0@[k] is Some);
        }
        if exists|i: int, k: int|
            0 <= i < answers.len() && answers[i].label@ == label->0@ && answers[i].terms is Some && 0
                <= k < answers[i].terms->0@.len() && (#[trigger] answers[i].terms->0@[k]) is Some
                && satisfied.contains(answers[i].terms->0@[k]->0) {
            let (i, k) = choose|i: int, k: int|
                0 <= i < answers.len() && answers[i].label@ == label->0@ && answers[i].terms is Some
                    && 0 <= k < answers[i].terms->0@.len() && (
                #[trigger] answers[i].terms->0@[k]) is Some && satisfied.contains(
                    answers[i].terms->0@[k]->0,
                );
            assert(answers[i].label@ == label->0@ && meets(answers[i], satisfied));
        }
    }
}

/// A view id that a key of a group spells, and of no later group, is that group's.
proof fn lemma_owner(groups: Seq<GateGroup>, id: Seq<char>, g: int, k: int)
    requires
        0 <= g < groups.len(),
        0 <= k < groups[g].keys@.len(),
        groups[g].name@ + ":"@ + groups[g].keys@[k]@ == id,
        forall|h: int, j: int|
            g < h < groups.len() && 0 <= j < groups[h].keys@.len() ==> groups[h].name@ + ":"@ + (
            #[trigger] groups[h].keys@[j])@ != id,
    ensures
        owner_of(groups, id) == Some(groups[g].name@),
    decreases groups.len(),
{
    if g == groups.len() - 1 {
        assert(view_id(groups[g].name@, groups[g].keys@[k]@) == id);
    } else {
        let front = groups.drop_last();
        assert(!owns(groups.last(), id));
        assert forall|h: int, j: int|
            g < h < front.len() && 0 <= j < front[h].keys@.len() implies front[h].name@ + ":"@ + (
        #[trigger] front[h].keys@[j])@ != id by {
            assert(groups[h].keys@[j] == front[h].keys@[j]);
        }
        lemma_owner(front, id, g, k);
    }
}

/// A view id that no key spells is of no group.
proof fn lemma_no_owner(groups: Seq<GateGroup>, id: Seq<char>)
    requires
        forall|h: int, j: int|
            0 <= h < groups.len() && 0 <= j < groups[h].keys@.len() ==> groups[h].name@ + ":"@ + (
            #[trigger] groups[h].keys@[j])@ != id,
    ensures
        owner_of(groups, id) is None,
    decreases groups.len(),
{
    if groups.len() > 0 {
        let front = groups.drop_last();
        assert forall|h: int, j: int|
            0 <= h < front.len() && 0 <= j < front[h].keys@.len() implies front[h].name@ + ":"@ + (
        #[trigger] front[h].keys@[j])@ != id by {
            assert(groups[h].keys@[j] == front[h].keys@[j]);
        }
        lemma_no_owner(front, id);
    }
}

/// A group is reached exactly where one of its name has no label, or one that resolves to a term the
/// principal satisfies.
pub proof fn law_a_group_is_reached_by_its_label(
    groups: Seq<GateGroup>,
    views: Seq<GateView>,
    answers: Seq<LabelTerms>,
    satisfied: Seq<u32>,
    visible: VisibleViews,
    name: Seq<char>,
)
    requires
        resolves(groups, views, answers, satisfied, visible),
    ensures
        (exists|w: int|
            0 <= w < visible.groups@.len() && (#[trigger] visible.groups@[w])@ == name) <==> (exists|
            g: int,
        |
            0 <= g < groups.len() && (#[trigger] groups[g]).name@ == name && (groups[g].visibility is Some
                ==> exists|i: int, k: int|
                0 <= i < answers.len() && answers[i].label@ == groups[g].visibility->0@
                    && answers[i].terms is Some && 0 <= k < answers[i].terms->0@.len() && (
                #[trigger] answers[i].terms->0@[k]) is Some && satisfied.contains(
                    answers[i].terms->0@[k]->0,
                ))),
{
    assert(lists(visible.groups@, name) <==> reaches_group(groups, answers, satisfied, name));
    assert forall|g: int| 0 <= g < groups.len() implies (satisfies(
        (#[trigger] groups[g]).visibility,
        answers,
        satisfied,
    ) <==> (groups[g].visibility is Some ==> exists|i: int, k: int|
        0 <= i < answers.len() && answers[i].label@ == groups[g].visibility->0@
            && answers[i].terms is Some && 0 <= k < answers[i].terms->0@.len() && (
        #[trigger] answers[i].terms->0@[k]) is Some && satisfied.contains(
            answers[i].terms->0@[k]->0,
        ))) by {
        lemma_satisfies(groups[g].visibility, answers, satisfied);
    }
    if reaches_group(groups, answers, satisfied, name) {
        let g = choose|g: int|
            0 <= g < groups.len() && (#[trigger] groups[g]).name@ == name && satisfies(
                groups[g].visibility,
                answers,
                satisfied,
            );
        assert(groups[g].name@ == name);
    }
}

/// Every view that is reached satisfies its own label, whether or not it is of a group, and where it
/// is of one, that group is reached.
pub proof fn law_a_reached_view_passes_both_gates(
    groups: Seq<GateGroup>,
    views: Seq<GateView>,
    answers: Seq<LabelTerms>,
    satisfied: Seq<u32>,
    visible: VisibleViews,
    w: int,
)
    requires
        resolves(groups, views, answers, satisfied, visible),
        0 <= w < visible.views@.len(),
    ensures
        exists|v: int|
            0 <= v < views.len() && (#[trigger] views[v]).id@ == visible.views@[w]@ && (
            views[v].visibility is Some ==> exists|i: int, k: int|
                0 <= i < answers.len() && answers[i].label@ == views[v].visibility->0@
                    && answers[i].terms is Some && 0 <= k < answers[i].terms->0@.len() && (
                #[trigger] answers[i].terms->0@[k]) is Some && satisfied.contains(
                    answers[i].terms->0@[k]->0,
                )),
        forall|g: int, k: int|
            0 <= g < groups.len() && 0 <= k < groups[g].keys@.len() && groups[g].name@ + ":"@ + (
            #[trigger] groups[g].keys@[k])@ == visible.views@[w]@ && (forall|h: int, j: int|
                g < h < groups.len() && 0 <= j < groups[h].keys@.len() ==> groups[h].name@ + ":"@ + (
                #[trigger] groups[h].keys@[j])@ != visible.views@[w]@) ==> exists|n: int|
                0 <= n < visible.groups@.len() && (#[trigger] visible.groups@[n])@
                    == groups[g].name@,
{
    let id = visible.views@[w]@;
    assert(lists(visible.views@, id));
    let v = choose|v: int|
        0 <= v < views.len() && (#[trigger] views[v]).id@ == id && passes_view(
            views[v],
            groups,
            answers,
            satisfied,
        );
    lemma_satisfies(views[v].visibility, answers, satisfied);
    assert(views[v].id@ == visible.views@[w]@);
    assert forall|g: int, k: int|
        0 <= g < groups.len() && 0 <= k < groups[g].keys@.len() && groups[g].name@ + ":"@ + (
        #[trigger] groups[g].keys@[k])@ == id && (forall|h: int, j: int|
            g < h < groups.len() && 0 <= j < groups[h].keys@.len() ==> groups[h].name@ + ":"@ + (
            #[trigger] groups[h].keys@[j])@ != id) implies exists|n: int|
        0 <= n < visible.groups@.len() && (#[trigger] visible.groups@[n])@ == groups[g].name@ by {
        lemma_owner(groups, id, g, k);
        assert(lists(visible.groups@, groups[g].name@));
    }
}

/// A view that satisfies its own label is reached where it is of no group.
pub proof fn law_a_view_of_no_group_is_reached_by_its_label(
    groups: Seq<GateGroup>,
    views: Seq<GateView>,
    answers: Seq<LabelTerms>,
    satisfied: Seq<u32>,
    visible: VisibleViews,
    v: int,
)
    requires
        resolves(groups, views, answers, satisfied, visible),
        0 <= v < views.len(),
        views[v].visibility is Some ==> exists|i: int, k: int|
            0 <= i < answers.len() && answers[i].label@ == views[v].visibility->0@
                && answers[i].terms is Some && 0 <= k < answers[i].terms->0@.len() && (
            #[trigger] answers[i].terms->0@[k]) is Some && satisfied.contains(
                answers[i].terms->0@[k]->0,
            ),
        forall|h: int, j: int|
            0 <= h < groups.len() && 0 <= j < groups[h].keys@.len() ==> groups[h].name@ + ":"@ + (
            #[trigger] groups[h].keys@[j])@ != views[v].id@,
    ensures
        exists|w: int|
            0 <= w < visible.views@.len() && (#[trigger] visible.views@[w])@ == views[v].id@,
{
    lemma_satisfies(views[v].visibility, answers, satisfied);
    lemma_no_owner(groups, views[v].id@);
    assert(passes_view(views[v], groups, answers, satisfied));
    assert(lists(visible.views@, views[v].id@));
}

/// A view that satisfies its own label is reached where the group it is of is.
pub proof fn law_a_view_of_a_reached_group_is_reached_by_its_label(
    groups: Seq<GateGroup>,
    views: Seq<GateView>,
    answers: Seq<LabelTerms>,
    satisfied: Seq<u32>,
    visible: VisibleViews,
    v: int,
    g: int,
    k: int,
    n: int,
)
    requires
        resolves(groups, views, answers, satisfied, visible),
        0 <= v < views.len(),
        views[v].visibility is Some ==> exists|i: int, k: int|
            0 <= i < answers.len() && answers[i].label@ == views[v].visibility->0@
                && answers[i].terms is Some && 0 <= k < answers[i].terms->0@.len() && (
            #[trigger] answers[i].terms->0@[k]) is Some && satisfied.contains(
                answers[i].terms->0@[k]->0,
            ),
        0 <= g < groups.len(),
        0 <= k < groups[g].keys@.len(),
        groups[g].name@ + ":"@ + groups[g].keys@[k]@ == views[v].id@,
        forall|h: int, j: int|
            g < h < groups.len() && 0 <= j < groups[h].keys@.len() ==> groups[h].name@ + ":"@ + (
            #[trigger] groups[h].keys@[j])@ != views[v].id@,
        0 <= n < visible.groups@.len(),
        visible.groups@[n]@ == groups[g].name@,
    ensures
        exists|w: int|
            0 <= w < visible.views@.len() && (#[trigger] visible.views@[w])@ == views[v].id@,
{
    lemma_satisfies(views[v].visibility, answers, satisfied);
    lemma_owner(groups, views[v].id@, g, k);
    assert(lists(visible.groups@, groups[g].name@));
    assert(passes_view(views[v], groups, answers, satisfied));
    assert(lists(visible.views@, views[v].id@));
}

/// A principal who satisfies more terms reaches no fewer views and no fewer groups.
pub proof fn law_more_terms_reach_no_less(
    groups: Seq<GateGroup>,
    views: Seq<GateView>,
    answers: Seq<LabelTerms>,
    fewer: Seq<u32>,
    more: Seq<u32>,
    less: VisibleViews,
    greater: VisibleViews,
    id: Seq<char>,
)
    requires
        resolves(groups, views, answers, fewer, less),
        resolves(groups, views, answers, more, greater),
        forall|term: u32| #[trigger] fewer.contains(term) ==> more.contains(term),
    ensures
        lists(less.groups@, id) ==> lists(greater.groups@, id),
        lists(less.views@, id) ==> lists(greater.views@, id),
{
    assert forall|label: Option<String>| satisfies(label, answers, fewer) implies #[trigger] satisfies(
        label,
        answers,
        more,
    ) by {
        lemma_satisfies(label, answers, fewer);
        lemma_satisfies(label, answers, more);
    }
    assert forall|name: Seq<char>| reaches_group(groups, answers, fewer, name) implies #[trigger] reaches_group(
        groups,
        answers,
        more,
        name,
    ) by {
        let g = choose|g: int|
            0 <= g < groups.len() && (#[trigger] groups[g]).name@ == name && satisfies(
                groups[g].visibility,
                answers,
                fewer,
            );
        assert(groups[g].name@ == name && satisfies(groups[g].visibility, answers, more));
    }
    assert(lists(less.views@, id) <==> reaches_view(views, groups, answers, fewer, id));
    assert(lists(greater.views@, id) <==> reaches_view(views, groups, answers, more, id));
    assert(lists(less.groups@, id) <==> reaches_group(groups, answers, fewer, id));
    assert(lists(greater.groups@, id) <==> reaches_group(groups, answers, more, id));
    if reaches_view(views, groups, answers, fewer, id) {
        let v = choose|v: int|
            0 <= v < views.len() && (#[trigger] views[v]).id@ == id && passes_view(
                views[v],
                groups,
                answers,
                fewer,
            );
        assert(satisfies(views[v].visibility, answers, more));
        assert(passes_view(views[v], groups, answers, more));
        assert(views[v].id@ == id);
    }
}

/// Every label that a group or a view carries is listed to be resolved, and nothing else is.
pub proof fn law_every_label_is_listed(
    groups: Seq<GateGroup>,
    views: Seq<GateView>,
    out: Seq<String>,
    text: Seq<char>,
)
    requires
        labelled(groups, views, out),
    ensures
        (exists|k: int| 0 <= k < out.len() && (#[trigger] out[k])@ == text) <==> ((exists|g: int|
            0 <= g < groups.len() && (#[trigger] groups[g]).visibility is Some
                && groups[g].visibility->0@ == text) || (exists|v: int|
            0 <= v < views.len() && (#[trigger] views[v]).visibility is Some
                && views[v].visibility->0@ == text)),
        forall|i: int, j: int|
            0 <= i < j < out.len() ==> (#[trigger] out[i])@ != (#[trigger] out[j])@,
{
    assert(lists(out, text) <==> names_label(groups, views, text));
}

} // verus!
