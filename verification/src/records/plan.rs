//! Which columns a request names, and where each is read from.

use vstd::prelude::*;

use crate::records::columns::SystemField;
use crate::records::refused::{RecordsRefused, Refusal};
use crate::records::RecordsOrder;
use crate::scalar::ScalarType;
use crate::text::same;

verus! {

/// A field the schema declares, and the homes it has.
#[derive(Debug)]
pub struct DeclaredField {
    pub name: String,
    pub ty: ScalarType,
    pub vocabulary: Option<String>,
    /// Whether views carry it in their row tails.
    pub rendered: bool,
    /// Whether it has an entity-space value column.
    pub value_column: bool,
}

/// A field declared per view of a group.
#[derive(Debug)]
pub struct ScopedField {
    pub name: String,
    pub ty: ScalarType,
    pub vocabulary: Option<String>,
}

/// What a name that is not declared resolves to under a view, for this viewer.
#[derive(Debug)]
pub enum ScopedAnswer {
    /// A column of a group-scoped family.
    Resolved { column: String, text: bool },
    /// A group-scoped field named bare under a view that decides none of its group's columns.
    Unpinned { group: String },
    UnknownPin { group: String, pin: String },
    PinOnUnscoped { column: String },
    Unknown,
}

/// Where a named field's value is read from.
#[derive(Debug)]
pub enum Home {
    /// The row tail of the requested view.
    Rendered,
    /// An entity-space value column, under its key.
    ValueColumn(String),
    /// The record store, under the field's declaration position.
    Record(u16),
}

/// One named field, resolved.
#[derive(Debug)]
pub struct Named {
    /// The spelling the request used, which is the column's name in every page.
    pub name: String,
    pub ty: ScalarType,
    pub vocabulary: Option<String>,
    pub home: Home,
}

/// Why a plan is refused.
#[derive(Debug)]
pub enum PlanRefused {
    Refused(RecordsRefused),
    /// A pin on a view this viewer cannot reach.
    UnknownView { group: String, pin: String },
    /// A field declared past what a record row can tag.
    PositionTooWide { name: String, index: usize },
}

/// What a plan's refusal says.
pub enum PlanRefusal {
    Refused(Refusal),
    UnknownView { group: Seq<char>, pin: Seq<char> },
    PositionTooWide { name: Seq<char>, index: usize },
}

impl View for PlanRefused {
    type V = PlanRefusal;

    open spec fn view(&self) -> PlanRefusal {
        match *self {
            PlanRefused::Refused(why) => PlanRefusal::Refused(why@),
            PlanRefused::UnknownView { group, pin } => PlanRefusal::UnknownView {
                group: group@,
                pin: pin@,
            },
            PlanRefused::PositionTooWide { name, index } => PlanRefusal::PositionTooWide {
                name: name@,
                index,
            },
        }
    }
}

/// Where a spelling's pin begins: its first `@`.
pub open spec fn pin_at(spelling: Seq<char>) -> Option<int>
    decreases spelling.len(),
{
    if spelling.len() == 0 {
        None
    } else if pin_at(spelling.drop_last()) is Some {
        pin_at(spelling.drop_last())
    } else if spelling.last() == '@' {
        Some(spelling.len() - 1)
    } else {
        None
    }
}

/// A spelling's field name.
pub open spec fn name_of(spelling: Seq<char>) -> Seq<char> {
    match pin_at(spelling) {
        Some(at) => spelling.take(at),
        None => spelling,
    }
}

proof fn lemma_pin_at(spelling: Seq<char>, i: int)
    requires
        0 <= i < spelling.len(),
        spelling[i] == '@',
        forall|k: int| 0 <= k < i ==> spelling[k] != '@',
    ensures
        pin_at(spelling) == Some(i),
    decreases spelling.len(),
{
    if i == spelling.len() - 1 {
        lemma_no_pin(spelling.drop_last());
    } else {
        lemma_pin_at(spelling.drop_last(), i);
    }
}

proof fn lemma_no_pin(spelling: Seq<char>)
    requires
        forall|k: int| 0 <= k < spelling.len() ==> spelling[k] != '@',
    ensures
        pin_at(spelling) is None,
    decreases spelling.len(),
{
    if spelling.len() > 0 {
        lemma_no_pin(spelling.drop_last());
    }
}

/// A spelling's field name, and whether it is pinned.
pub fn split_pin(spelling: &str) -> (out: (String, bool))
    ensures
        out.0@ == name_of(spelling@),
        out.1 == (pin_at(spelling@) is Some),
{
    let count: usize = spelling.unicode_len();
    let mut i: usize = 0;
    while i < count
        invariant
            i <= count == spelling@.len(),
            forall|k: int| 0 <= k < i ==> spelling@[k] != '@',
        decreases count - i,
    {
        if spelling.get_char(i) == '@' {
            proof {
                lemma_pin_at(spelling@, i as int);
                assert(spelling@.subrange(0, i as int) =~= spelling@.take(i as int));
            }
            return (String::from_str(spelling.substring_char(0, i)), true);
        }
        i += 1;
    }
    proof {
        lemma_no_pin(spelling@);
    }
    (String::from_str(spelling), false)
}

/// Where the first declared field of a name stands.
pub open spec fn declared_at(declared: Seq<DeclaredField>, name: Seq<char>) -> Option<int>
    decreases declared.len(),
{
    if declared.len() == 0 {
        None
    } else if declared_at(declared.drop_last(), name) is Some {
        declared_at(declared.drop_last(), name)
    } else if declared.last().name@ == name {
        Some(declared.len() - 1)
    } else {
        None
    }
}

proof fn lemma_declared_step(declared: Seq<DeclaredField>, i: int, name: Seq<char>)
    requires
        0 <= i < declared.len(),
    ensures
        declared_at(declared.take(i + 1), name) == if declared_at(declared.take(i), name) is Some {
            declared_at(declared.take(i), name)
        } else if declared[i].name@ == name {
            Some(i)
        } else {
            None
        },
{
    assert(declared.take(i + 1).drop_last() =~= declared.take(i));
}

proof fn lemma_declared_stays(declared: Seq<DeclaredField>, i: int, name: Seq<char>)
    requires
        0 <= i <= declared.len(),
        declared_at(declared.take(i), name) is Some,
    ensures
        declared_at(declared, name) == declared_at(declared.take(i), name),
    decreases declared.len() - i,
{
    if i < declared.len() {
        lemma_declared_step(declared, i, name);
        lemma_declared_stays(declared, i + 1, name);
    } else {
        assert(declared.take(i) =~= declared);
    }
}

fn find_declared(declared: &Vec<DeclaredField>, name: &str) -> (at: Option<usize>)
    ensures
        at is Some <==> declared_at(declared@, name@) is Some,
        at matches Some(i) ==> i < declared@.len() && declared_at(declared@, name@) == Some(
            i as int,
        ) && declared@[i as int].name@ == name@,
{
    let mut i: usize = 0;
    assert(declared@.take(0) =~= Seq::<DeclaredField>::empty());
    while i < declared.len()
        invariant
            i <= declared@.len(),
            declared_at(declared@.take(i as int), name@) is None,
        decreases declared@.len() - i,
    {
        proof {
            lemma_declared_step(declared@, i as int, name@);
        }
        if same(declared[i].name.as_str(), name) {
            proof {
                lemma_declared_stays(declared@, i + 1, name@);
            }
            return Some(i);
        }
        i += 1;
    }
    assert(declared@.take(i as int) =~= declared@);
    None
}

/// Where the first group-scoped field of a name stands.
pub open spec fn scoped_at(scoped: Seq<ScopedField>, name: Seq<char>, i: int) -> bool {
    &&& 0 <= i < scoped.len()
    &&& scoped[i].name@ == name
    &&& forall|k: int| 0 <= k < i ==> (#[trigger] scoped[k]).name@ != name
}

/// Whether a group-scoped field has a name.
pub open spec fn scopes(scoped: Seq<ScopedField>, name: Seq<char>) -> bool {
    exists|i: int| 0 <= i < scoped.len() && (#[trigger] scoped[i]).name@ == name
}

fn find_scoped(scoped: &Vec<ScopedField>, name: &str) -> (at: usize)
    requires
        scopes(scoped@, name@),
    ensures
        scoped_at(scoped@, name@, at as int),
{
    let mut i: usize = 0;
    while i < scoped.len() && !same(scoped[i].name.as_str(), name)
        invariant
            i <= scoped@.len(),
            scopes(scoped@, name@),
            forall|k: int| 0 <= k < i ==> (#[trigger] scoped@[k]).name@ != name@,
        decreases scoped@.len() - i,
    {
        i += 1;
    }
    proof {
        let k = choose|k: int| 0 <= k < scoped@.len() && (#[trigger] scoped@[k]).name@ == name@;
        assert(scoped@[k].name@ == name@);
    }
    i
}

/// What a declared field's home is: its row tail where a view renders it, else its value column,
/// else the record store.
pub open spec fn home_of(field: DeclaredField, index: int, home: Home) -> bool {
    if field.rendered {
        home is Rendered
    } else if field.value_column {
        home matches Home::ValueColumn(column) && column@ == field.name@
    } else {
        home matches Home::Record(tag) && tag == index
    }
}

/// Why a spelling does not resolve, if it does not.
pub open spec fn field_refusal(
    declared: Seq<DeclaredField>,
    spelling: Seq<char>,
    scoped: ScopedAnswer,
) -> Option<PlanRefusal> {
    let name = name_of(spelling);
    match declared_at(declared, name) {
        Some(index) => if pin_at(spelling) is Some {
            Some(PlanRefusal::Refused(Refusal::PinOnUnscoped(name)))
        } else if !declared[index].rendered && !declared[index].value_column && index > u16::MAX {
            Some(PlanRefusal::PositionTooWide { name, index: index as usize })
        } else {
            None
        },
        None => match scoped {
            ScopedAnswer::Resolved { column, text } => if text {
                Some(PlanRefusal::Refused(Refusal::ScopedText(spelling)))
            } else {
                None
            },
            ScopedAnswer::Unpinned { group } => Some(
                PlanRefusal::Refused(Refusal::Unpinned { field: name, group: group@ }),
            ),
            ScopedAnswer::UnknownPin { group, pin } => Some(
                PlanRefusal::UnknownView { group: group@, pin: pin@ },
            ),
            ScopedAnswer::PinOnUnscoped { column } => Some(
                PlanRefusal::Refused(Refusal::PinOnUnscoped(column@)),
            ),
            ScopedAnswer::Unknown => Some(PlanRefusal::Refused(Refusal::UnknownField(spelling))),
        },
    }
}

/// Whether a field is what a spelling resolves to.
pub open spec fn resolves_to(
    declared: Seq<DeclaredField>,
    families: Seq<ScopedField>,
    spelling: Seq<char>,
    scoped: ScopedAnswer,
    named: Named,
) -> bool {
    &&& named.name@ == spelling
    &&& match declared_at(declared, name_of(spelling)) {
        Some(index) => {
            &&& named.ty == declared[index].ty
            &&& text_of(named.vocabulary) == text_of(declared[index].vocabulary)
            &&& home_of(declared[index], index, named.home)
        },
        None => exists|i: int| #[trigger]
            scoped_at(families, name_of(spelling), i) && named.ty == families[i].ty && text_of(
                named.vocabulary,
            ) == text_of(families[i].vocabulary) && (named.home matches Home::ValueColumn(column)
                && scoped matches ScopedAnswer::Resolved { column: found, text } && column@
                == found@),
    }
}

/// An optional string as text.
pub open spec fn text_of(text: Option<String>) -> Option<Seq<char>> {
    match text {
        Some(text) => Some(text@),
        None => None,
    }
}

fn copy_text(text: &Option<String>) -> (out: Option<String>)
    ensures
        text_of(out) == text_of(*text),
{
    match text {
        Some(text) => Some(String::from_str(text.as_str())),
        None => None,
    }
}

/// One spelling, resolved: a declared field where there is one of the name, and otherwise what the
/// name resolves to under the view.
pub fn resolve_field(
    declared: &Vec<DeclaredField>,
    families: &Vec<ScopedField>,
    spelling: &str,
    scoped: &ScopedAnswer,
) -> (out: Result<Named, PlanRefused>)
    requires
        scoped is Resolved && declared_at(declared@, name_of(spelling@)) is None ==> scopes(
            families@,
            name_of(spelling@),
        ),
    ensures
        out is Err <==> field_refusal(declared@, spelling@, *scoped) is Some,
        out matches Err(why) ==> field_refusal(declared@, spelling@, *scoped) == Some(why@),
        out matches Ok(named) ==> resolves_to(declared@, families@, spelling@, *scoped, named),
{
    let (name, pinned) = split_pin(spelling);
    if let Some(index) = find_declared(declared, name.as_str()) {
        if pinned {
            return Err(PlanRefused::Refused(RecordsRefused::PinOnUnscoped(name)));
        }
        let field = &declared[index];
        let home: Home = if field.rendered {
            Home::Rendered
        } else if field.value_column {
            Home::ValueColumn(String::from_str(field.name.as_str()))
        } else {
            if index > u16::MAX as usize {
                return Err(PlanRefused::PositionTooWide { name, index });
            }
            Home::Record(index as u16)
        };
        return Ok(
            Named {
                name: String::from_str(spelling),
                ty: field.ty,
                vocabulary: copy_text(&field.vocabulary),
                home,
            },
        );
    }
    match scoped {
        ScopedAnswer::Resolved { column, text } => {
            if *text {
                return Err(
                    PlanRefused::Refused(RecordsRefused::ScopedText(String::from_str(spelling))),
                );
            }
            let at: usize = find_scoped(families, name.as_str());
            let family = &families[at];
            assert(scoped_at(families@, name_of(spelling@), at as int));
            Ok(
                Named {
                    name: String::from_str(spelling),
                    ty: family.ty,
                    vocabulary: copy_text(&family.vocabulary),
                    home: Home::ValueColumn(String::from_str(column.as_str())),
                },
            )
        },
        ScopedAnswer::Unpinned { group } => Err(
            PlanRefused::Refused(
                RecordsRefused::Unpinned { field: name, group: String::from_str(group.as_str()) },
            ),
        ),
        ScopedAnswer::UnknownPin { group, pin } => Err(
            PlanRefused::UnknownView {
                group: String::from_str(group.as_str()),
                pin: String::from_str(pin.as_str()),
            },
        ),
        ScopedAnswer::PinOnUnscoped { column } => Err(
            PlanRefused::Refused(RecordsRefused::PinOnUnscoped(String::from_str(column.as_str()))),
        ),
        ScopedAnswer::Unknown => Err(
            PlanRefused::Refused(RecordsRefused::UnknownField(String::from_str(spelling))),
        ),
    }
}

/// Every column a request's pages carry after the id, in order.
#[derive(Debug)]
pub struct FieldPlan {
    pub named: Vec<Named>,
    pub system: Vec<SystemField>,
}

/// Whether a spelling stands among the first `n` of a list.
pub open spec fn named_before(fields: Seq<String>, n: int, spelling: Seq<char>) -> bool {
    exists|k: int| 0 <= k < n && (#[trigger] fields[k])@ == spelling
}

/// Why the field at `i` is refused, once the ones before it were resolved: it is named twice, or it
/// does not resolve.
pub open spec fn nth_refusal(
    declared: Seq<DeclaredField>,
    fields: Seq<String>,
    scoped: Seq<ScopedAnswer>,
    i: int,
) -> Option<PlanRefusal> {
    if named_before(fields, i, fields[i]@) {
        Some(PlanRefusal::Refused(Refusal::RepeatedField(fields[i]@)))
    } else {
        field_refusal(declared, fields[i]@, scoped[i])
    }
}

/// The first refusal among the first `n` fields.
pub open spec fn fields_refusal(
    declared: Seq<DeclaredField>,
    fields: Seq<String>,
    scoped: Seq<ScopedAnswer>,
    n: int,
) -> Option<PlanRefusal>
    decreases n,
{
    if n <= 0 {
        None
    } else if fields_refusal(declared, fields, scoped, n - 1) is Some {
        fields_refusal(declared, fields, scoped, n - 1)
    } else {
        nth_refusal(declared, fields, scoped, n - 1)
    }
}

/// Why the system field at `i` is refused: no field of that name, or named twice.
pub open spec fn nth_system_refusal(names: Seq<String>, i: int) -> Option<Refusal> {
    match SystemField::named(names[i]@) {
        None => Some(Refusal::UnknownSystemField(names[i]@)),
        Some(_) => if named_before(names, i, names[i]@) {
            Some(Refusal::RepeatedField(names[i]@))
        } else {
            None
        },
    }
}

/// The first refusal among the first `n` system fields.
pub open spec fn system_refusal(names: Seq<String>, n: int) -> Option<Refusal>
    decreases n,
{
    if n <= 0 {
        None
    } else if system_refusal(names, n - 1) is Some {
        system_refusal(names, n - 1)
    } else {
        nth_system_refusal(names, n - 1)
    }
}

proof fn lemma_fields_refusal_stays(
    declared: Seq<DeclaredField>,
    fields: Seq<String>,
    scoped: Seq<ScopedAnswer>,
    n: int,
    more: int,
)
    requires
        n <= more,
        fields_refusal(declared, fields, scoped, n) is Some,
    ensures
        fields_refusal(declared, fields, scoped, more) == fields_refusal(
            declared,
            fields,
            scoped,
            n,
        ),
    decreases more - n,
{
    if n < more {
        lemma_fields_refusal_stays(declared, fields, scoped, n, more - 1);
    }
}

proof fn lemma_system_refusal_stays(names: Seq<String>, n: int, more: int)
    requires
        n <= more,
        system_refusal(names, n) is Some,
    ensures
        system_refusal(names, more) == system_refusal(names, n),
    decreases more - n,
{
    if n < more {
        lemma_system_refusal_stays(names, n, more - 1);
    }
}

/// Why a plan is refused, if it is: the named fields are looked at first, then the system fields.
pub open spec fn plan_refusal(
    declared: Seq<DeclaredField>,
    fields: Seq<String>,
    scoped: Seq<ScopedAnswer>,
    system_fields: Seq<String>,
) -> Option<PlanRefusal> {
    match fields_refusal(declared, fields, scoped, fields.len() as int) {
        Some(why) => Some(why),
        None => match system_refusal(system_fields, system_fields.len() as int) {
            Some(why) => Some(PlanRefusal::Refused(why)),
            None => None,
        },
    }
}

impl FieldPlan {
    /// Whether the plan is what the fields named come to, in order.
    pub open spec fn resolves(
        &self,
        declared: Seq<DeclaredField>,
        families: Seq<ScopedField>,
        fields: Seq<String>,
        scoped: Seq<ScopedAnswer>,
        system_fields: Seq<String>,
    ) -> bool {
        &&& self.named@.len() == fields.len()
        &&& forall|i: int|
            0 <= i < fields.len() ==> resolves_to(
                declared,
                families,
                (#[trigger] fields[i])@,
                scoped[i],
                self.named@[i],
            )
        &&& self.system@.len() == system_fields.len()
        &&& forall|i: int|
            0 <= i < system_fields.len() ==> SystemField::named((#[trigger] system_fields[i])@)
                == Some(self.system@[i])
    }

    /// The request's fields and system fields, resolved. `scoped` holds, for each field, what its
    /// name resolves to under the view where no field of it is declared.
    pub fn resolve(
        declared: &Vec<DeclaredField>,
        families: &Vec<ScopedField>,
        fields: &Vec<String>,
        scoped: &Vec<ScopedAnswer>,
        system_fields: &Vec<String>,
    ) -> (out: Result<FieldPlan, PlanRefused>)
        requires
            scoped@.len() == fields@.len(),
            forall|i: int|
                0 <= i < fields@.len() && scoped@[i] is Resolved && declared_at(
                    declared@,
                    name_of((#[trigger] fields@[i])@),
                ) is None ==> scopes(families@, name_of(fields@[i]@)),
        ensures
            out is Err <==> plan_refusal(declared@, fields@, scoped@, system_fields@) is Some,
            out matches Err(why) ==> plan_refusal(declared@, fields@, scoped@, system_fields@)
                == Some(why@),
            out matches Ok(plan) ==> plan.resolves(
                declared@,
                families@,
                fields@,
                scoped@,
                system_fields@,
            ),
    {
        let mut named: Vec<Named> = Vec::new();
        let mut i: usize = 0;
        while i < fields.len()
            invariant
                i <= fields@.len(),
                scoped@.len() == fields@.len(),
                forall|k: int|
                    0 <= k < fields@.len() && scoped@[k] is Resolved && declared_at(
                        declared@,
                        name_of((#[trigger] fields@[k])@),
                    ) is None ==> scopes(families@, name_of(fields@[k]@)),
                named@.len() == i,
                fields_refusal(declared@, fields@, scoped@, i as int) is None,
                forall|k: int|
                    0 <= k < i ==> resolves_to(
                        declared@,
                        families@,
                        (#[trigger] fields@[k])@,
                        scoped@[k],
                        named@[k],
                    ),
            decreases fields@.len() - i,
        {
            if repeated(fields, i) {
                proof {
                    lemma_fields_refusal_stays(
                        declared@,
                        fields@,
                        scoped@,
                        i + 1,
                        fields@.len() as int,
                    );
                }
                return Err(
                    PlanRefused::Refused(RecordsRefused::RepeatedField(fields[i].clone())),
                );
            }
            match resolve_field(declared, families, fields[i].as_str(), &scoped[i]) {
                Ok(field) => {
                    named.push(field);
                },
                Err(why) => {
                    proof {
                        lemma_fields_refusal_stays(
                            declared@,
                            fields@,
                            scoped@,
                            i + 1,
                            fields@.len() as int,
                        );
                    }
                    return Err(why);
                },
            }
            i += 1;
        }
        let mut system: Vec<SystemField> = Vec::new();
        let mut j: usize = 0;
        while j < system_fields.len()
            invariant
                j <= system_fields@.len(),
                system@.len() == j,
                fields_refusal(declared@, fields@, scoped@, fields@.len() as int) is None,
                system_refusal(system_fields@, j as int) is None,
                forall|k: int|
                    0 <= k < j ==> SystemField::named((#[trigger] system_fields@[k])@) == Some(
                        system@[k],
                    ),
            decreases system_fields@.len() - j,
        {
            match SystemField::parse(system_fields[j].as_str()) {
                None => {
                    proof {
                        lemma_system_refusal_stays(
                            system_fields@,
                            j + 1,
                            system_fields@.len() as int,
                        );
                    }
                    return Err(
                        PlanRefused::Refused(
                            RecordsRefused::UnknownSystemField(system_fields[j].clone()),
                        ),
                    );
                },
                Some(field) => {
                    if repeated(system_fields, j) {
                        proof {
                            lemma_system_refusal_stays(
                                system_fields@,
                                j + 1,
                                system_fields@.len() as int,
                            );
                        }
                        return Err(
                            PlanRefused::Refused(
                                RecordsRefused::RepeatedField(system_fields[j].clone()),
                            ),
                        );
                    }
                    system.push(field);
                },
            }
            j += 1;
        }
        Ok(FieldPlan { named, system })
    }

    /// Whether a field is read only from the record store.
    pub open spec fn reads_records(&self) -> bool {
        exists|i: int| 0 <= i < self.named@.len() && (#[trigger] self.named@[i]).home is Record
    }

    /// The order a request that names none is served in: stored where a field is read only from the
    /// record store, which holds rows in that order.
    pub fn preferred_order(&self) -> (order: RecordsOrder)
        ensures
            order == if self.reads_records() {
                RecordsOrder::Stored
            } else {
                RecordsOrder::ByMap
            },
    {
        let mut i: usize = 0;
        while i < self.named.len()
            invariant
                i <= self.named@.len(),
                forall|k: int| 0 <= k < i ==> !((#[trigger] self.named@[k]).home is Record),
            decreases self.named@.len() - i,
        {
            match &self.named[i].home {
                Home::Record(_) => {
                    assert(self.named@[i as int].home is Record);
                    return RecordsOrder::Stored;
                },
                _ => {},
            }
            i += 1;
        }
        RecordsOrder::ByMap
    }
}

/// Whether a name stands in a list before its own place.
fn repeated(names: &Vec<String>, i: usize) -> (yes: bool)
    requires
        i < names@.len(),
    ensures
        yes == named_before(names@, i as int, names@[i as int]@),
{
    let mut k: usize = 0;
    while k < i
        invariant
            k <= i < names@.len(),
            forall|j: int| 0 <= j < k ==> (#[trigger] names@[j])@ != names@[i as int]@,
        decreases i - k,
    {
        if same(names[k].as_str(), names[i].as_str()) {
            assert(names@[k as int]@ == names@[i as int]@);
            return true;
        }
        k += 1;
    }
    false
}

proof fn lemma_pin(spelling: Seq<char>)
    ensures
        pin_at(spelling) is None ==> forall|k: int| 0 <= k < spelling.len() ==> spelling[k] != '@',
        pin_at(spelling) is Some ==> 0 <= pin_at(spelling)->0 < spelling.len()
            && spelling[pin_at(spelling)->0] == '@' && forall|k: int|
            0 <= k < pin_at(spelling)->0 ==> spelling[k] != '@',
    decreases spelling.len(),
{
    if spelling.len() > 0 {
        lemma_pin(spelling.drop_last());
        assert(forall|k: int|
            0 <= k < spelling.len() - 1 ==> spelling.drop_last()[k] == spelling[k]);
    }
}

proof fn lemma_declared(declared: Seq<DeclaredField>, name: Seq<char>)
    ensures
        declared_at(declared, name) is None ==> forall|k: int|
            0 <= k < declared.len() ==> (#[trigger] declared[k]).name@ != name,
        declared_at(declared, name) is Some ==> 0 <= declared_at(declared, name)->0 < declared.len()
            && declared[declared_at(declared, name)->0].name@ == name && forall|k: int|
            0 <= k < declared_at(declared, name)->0 ==> (#[trigger] declared[k]).name@ != name,
    decreases declared.len(),
{
    if declared.len() > 0 {
        let front = declared.drop_last();
        lemma_declared(front, name);
        assert(forall|k: int| 0 <= k < front.len() ==> front[k] == #[trigger] declared[k]);
    }
}

/// A field that the schema declares is read as declared: under the spelling the request used, with
/// the declared type and vocabulary, from the row tail where views render it, else from its value
/// column, else from the record store under its place in the schema. A spelling names what stands
/// before its first `@`, and the first declaration of that name is the one it names.
pub proof fn law_a_declared_field_is_read_as_declared(
    plan: FieldPlan,
    declared: Seq<DeclaredField>,
    families: Seq<ScopedField>,
    fields: Seq<String>,
    scoped: Seq<ScopedAnswer>,
    system_fields: Seq<String>,
    i: int,
    pin: int,
    d: int,
)
    requires
        plan.resolves(declared, families, fields, scoped, system_fields),
        0 <= i < fields.len(),
        0 <= pin <= fields[i]@.len(),
        pin < fields[i]@.len() ==> fields[i]@[pin] == '@',
        forall|c: int| 0 <= c < pin ==> fields[i]@[c] != '@',
        0 <= d < declared.len(),
        declared[d].name@ == fields[i]@.take(pin),
        forall|k: int| 0 <= k < d ==> (#[trigger] declared[k]).name@ != fields[i]@.take(pin),
    ensures
        plan.named@.len() == fields.len(),
        ({
            let named = plan.named@[i];
            let field = declared[d];
            &&& named.name@ == fields[i]@
            &&& named.ty == field.ty
            &&& named.vocabulary is Some <==> field.vocabulary is Some
            &&& named.vocabulary is Some ==> named.vocabulary->0@ == field.vocabulary->0@
            &&& named.home is Rendered <==> field.rendered
            &&& named.home is ValueColumn <==> !field.rendered && field.value_column
            &&& named.home is ValueColumn ==> named.home->ValueColumn_0@ == field.name@
            &&& named.home is Record <==> !field.rendered && !field.value_column
            &&& named.home is Record ==> named.home->Record_0 == d
        }),
{
    let spelling = fields[i]@;
    let name = spelling.take(pin);
    assert(resolves_to(declared, families, fields[i]@, scoped[i], plan.named@[i]));
    lemma_pin(spelling);
    assert(name_of(spelling) == name) by {
        if pin_at(spelling) is None {
            assert(spelling.take(spelling.len() as int) =~= spelling);
        }
    }
    lemma_declared(declared, name);
    let found = declared_at(declared, name);
    assert(found is Some) by {
        if found is None {
            assert(declared[d].name@ != name);
        }
    }
    assert(found->0 == d) by {
        if found->0 < d {
            assert(declared[found->0].name@ != name);
        } else if d < found->0 {
            assert(declared[d].name@ != name);
        }
    }
}

/// A field that no declaration names is one of a family's: it is read from the value column that the
/// name resolved to under the view, with the type and vocabulary of the first family of its name.
pub proof fn law_a_scoped_field_is_read_from_its_own_column(
    plan: FieldPlan,
    declared: Seq<DeclaredField>,
    families: Seq<ScopedField>,
    fields: Seq<String>,
    scoped: Seq<ScopedAnswer>,
    system_fields: Seq<String>,
    i: int,
    pin: int,
) -> (f: int)
    requires
        plan.resolves(declared, families, fields, scoped, system_fields),
        0 <= i < fields.len(),
        0 <= pin <= fields[i]@.len(),
        pin < fields[i]@.len() ==> fields[i]@[pin] == '@',
        forall|c: int| 0 <= c < pin ==> fields[i]@[c] != '@',
        forall|k: int|
            0 <= k < declared.len() ==> (#[trigger] declared[k]).name@ != fields[i]@.take(pin),
    ensures
        ({
            let named = plan.named@[i];
            &&& named.name@ == fields[i]@
            &&& 0 <= f < families.len()
            &&& families[f].name@ == fields[i]@.take(pin)
            &&& forall|k: int|
                0 <= k < f ==> (#[trigger] families[k]).name@ != fields[i]@.take(pin)
            &&& named.ty == families[f].ty
            &&& named.vocabulary is Some <==> families[f].vocabulary is Some
            &&& named.vocabulary is Some ==> named.vocabulary->0@ == families[f].vocabulary->0@
            &&& named.home is ValueColumn
            &&& scoped[i] is Resolved
            &&& named.home->ValueColumn_0@ == scoped[i]->Resolved_column@
        }),
{
    let spelling = fields[i]@;
    let name = spelling.take(pin);
    assert(resolves_to(declared, families, fields[i]@, scoped[i], plan.named@[i]));
    lemma_pin(spelling);
    assert(name_of(spelling) == name) by {
        if pin_at(spelling) is None {
            assert(spelling.take(spelling.len() as int) =~= spelling);
        }
    }
    lemma_declared(declared, name);
    let named = plan.named@[i];
    choose|f: int|
        scoped_at(families, name, f) && named.ty == families[f].ty && text_of(named.vocabulary)
            == text_of(families[f].vocabulary) && (named.home matches Home::ValueColumn(column)
            && scoped[i] matches ScopedAnswer::Resolved { column: found, text } && column@ == found@)
}

/// A system field is the one its name says, and there are three.
pub proof fn law_a_system_field_is_the_one_named(
    plan: FieldPlan,
    declared: Seq<DeclaredField>,
    families: Seq<ScopedField>,
    fields: Seq<String>,
    scoped: Seq<ScopedAnswer>,
    system_fields: Seq<String>,
    i: int,
)
    requires
        plan.resolves(declared, families, fields, scoped, system_fields),
        0 <= i < system_fields.len(),
    ensures
        plan.system@.len() == system_fields.len(),
        plan.system@[i] is Position ==> system_fields[i]@ == "position"@,
        plan.system@[i] is ExternalId ==> system_fields[i]@ == "external_id"@,
        plan.system@[i] is Labels ==> system_fields[i]@ == "labels"@,
{
    assert(SystemField::named(system_fields[i]@) == Some(plan.system@[i]));
}

/// A plan is refused exactly where a field is named twice, a declared one is pinned, or is recorded
/// at a place past what a tag holds, an undeclared one resolves to no column that holds a value, or
/// a system field is unknown or named twice.
pub proof fn law_a_plan_is_refused_for_a_field_it_cannot_serve(
    declared: Seq<DeclaredField>,
    fields: Seq<String>,
    scoped: Seq<ScopedAnswer>,
    system_fields: Seq<String>,
    i: int,
    k: int,
    pin: int,
)
    requires
        plan_refusal(declared, fields, scoped, system_fields) is None,
        0 <= i < fields.len(),
        0 <= pin <= fields[i]@.len(),
        pin < fields[i]@.len() ==> fields[i]@[pin] == '@',
        forall|c: int| 0 <= c < pin ==> fields[i]@[c] != '@',
    ensures
        0 <= k < i ==> fields[k]@ != fields[i]@,
        (exists|d: int| 0 <= d < declared.len() && (#[trigger] declared[d]).name@ == fields[i]@.take(pin))
            ==> pin == fields[i]@.len(),
        (forall|d: int|
            0 <= d < declared.len() ==> (#[trigger] declared[d]).name@ != fields[i]@.take(pin))
            ==> scoped[i] is Resolved && !scoped[i]->text,
        forall|s: int|
            0 <= s < system_fields.len() ==> (#[trigger] system_fields[s])@ == "position"@
                || system_fields[s]@ == "external_id"@ || system_fields[s]@ == "labels"@,
        forall|s: int, t: int|
            0 <= t < s < system_fields.len() ==> (#[trigger] system_fields[s])@ != (
            #[trigger] system_fields[t])@,
{
    let n = fields.len() as int;
    lemma_fields_refusal(declared, fields, scoped, n);
    assert(nth_refusal(declared, fields, scoped, i) is None);
    if 0 <= k < i && fields[k]@ == fields[i]@ {
        assert(named_before(fields, i, fields[i]@));
    }
    let spelling = fields[i]@;
    let name = spelling.take(pin);
    lemma_pin(spelling);
    assert(name_of(spelling) == name) by {
        if pin_at(spelling) is None {
            assert(spelling.take(spelling.len() as int) =~= spelling);
        }
    }
    lemma_declared(declared, name);
    lemma_system_refusal(system_fields, system_fields.len() as int);
    assert forall|s: int| 0 <= s < system_fields.len() implies (#[trigger] system_fields[s])@
        == "position"@ || system_fields[s]@ == "external_id"@ || system_fields[s]@ == "labels"@ by {
        assert(nth_system_refusal(system_fields, s) is None);
    }
    assert forall|s: int, t: int| 0 <= t < s < system_fields.len() implies (
    #[trigger] system_fields[s])@ != (#[trigger] system_fields[t])@ by {
        assert(nth_system_refusal(system_fields, s) is None);
        if system_fields[s]@ == system_fields[t]@ {
            assert(named_before(system_fields, s, system_fields[s]@));
        }
    }
}

/// A plan is served where no field is named twice, each declared one is named bare and is rendered,
/// has a value column or is recorded at a place a tag holds, each undeclared one resolves to a
/// column that holds a value, and the system fields are known and named once.
pub proof fn law_a_plan_of_fields_it_can_serve_is_served(
    declared: Seq<DeclaredField>,
    fields: Seq<String>,
    scoped: Seq<ScopedAnswer>,
    system_fields: Seq<String>,
)
    requires
        forall|i: int, k: int|
            0 <= k < i < fields.len() ==> (#[trigger] fields[k])@ != (#[trigger] fields[i])@,
        forall|i: int, c: int|
            0 <= i < fields.len() && 0 <= c < fields[i]@.len() ==> (#[trigger] fields[i]@[c]) != '@',
        forall|i: int|
            0 <= i < fields.len() ==> ({
                ||| (exists|d: int|
                    0 <= d <= u16::MAX && d < declared.len() && (#[trigger] declared[d]).name@ == (
                    #[trigger] fields[i])@)
                ||| scoped[i] is Resolved && !scoped[i]->text && (forall|d: int|
                    0 <= d < declared.len() ==> (#[trigger] declared[d]).name@ != fields[i]@)
            }),
        forall|s: int|
            0 <= s < system_fields.len() ==> (#[trigger] system_fields[s])@ == "position"@
                || system_fields[s]@ == "external_id"@ || system_fields[s]@ == "labels"@,
        forall|s: int, t: int|
            0 <= t < s < system_fields.len() ==> (#[trigger] system_fields[s])@ != (
            #[trigger] system_fields[t])@,
    ensures
        plan_refusal(declared, fields, scoped, system_fields) is None,
{
    assert forall|i: int| 0 <= i < fields.len() implies #[trigger] nth_refusal(
        declared,
        fields,
        scoped,
        i,
    ) is None by {
        lemma_pin(fields[i]@);
        assert(pin_at(fields[i]@) is None) by {
            if pin_at(fields[i]@) is Some {
                assert(fields[i]@[pin_at(fields[i]@)->0] != '@');
            }
        }
        lemma_declared(declared, fields[i]@);
        if named_before(fields, i, fields[i]@) {
            let k = choose|k: int| 0 <= k < i && (#[trigger] fields[k])@ == fields[i]@;
            assert(fields[k]@ != fields[i]@);
        }
        if exists|d: int|
            0 <= d <= u16::MAX && d < declared.len() && (#[trigger] declared[d]).name@
                == fields[i]@ {
            let d = choose|d: int|
                0 <= d <= u16::MAX && d < declared.len() && (#[trigger] declared[d]).name@
                    == fields[i]@;
            let found = declared_at(declared, fields[i]@);
            if found is Some && found->0 > d {
                assert(declared[d].name@ != fields[i]@);
            }
        }
    }
    lemma_no_fields_refusal(declared, fields, scoped, fields.len() as int);
    assert forall|s: int| 0 <= s < system_fields.len() implies #[trigger] nth_system_refusal(
        system_fields,
        s,
    ) is None by {
        assert(system_fields[s]@ == "position"@ || system_fields[s]@ == "external_id"@
            || system_fields[s]@ == "labels"@);
        if named_before(system_fields, s, system_fields[s]@) {
            let t = choose|t: int| 0 <= t < s && (#[trigger] system_fields[t])@ == system_fields[s]@;
            assert(system_fields[s]@ != system_fields[t]@);
        }
    }
    lemma_no_system_refusal(system_fields, system_fields.len() as int);
}

proof fn lemma_fields_refusal(
    declared: Seq<DeclaredField>,
    fields: Seq<String>,
    scoped: Seq<ScopedAnswer>,
    n: int,
)
    requires
        fields_refusal(declared, fields, scoped, n) is None,
    ensures
        forall|i: int|
            0 <= i < n ==> #[trigger] nth_refusal(declared, fields, scoped, i) is None,
    decreases n,
{
    if n > 0 {
        lemma_fields_refusal(declared, fields, scoped, n - 1);
    }
}

proof fn lemma_no_fields_refusal(
    declared: Seq<DeclaredField>,
    fields: Seq<String>,
    scoped: Seq<ScopedAnswer>,
    n: int,
)
    requires
        forall|i: int|
            0 <= i < n ==> #[trigger] nth_refusal(declared, fields, scoped, i) is None,
    ensures
        fields_refusal(declared, fields, scoped, n) is None,
    decreases n,
{
    if n > 0 {
        lemma_no_fields_refusal(declared, fields, scoped, n - 1);
        assert(nth_refusal(declared, fields, scoped, n - 1) is None);
    }
}

proof fn lemma_system_refusal(names: Seq<String>, n: int)
    requires
        system_refusal(names, n) is None,
    ensures
        forall|i: int| 0 <= i < n ==> #[trigger] nth_system_refusal(names, i) is None,
    decreases n,
{
    if n > 0 {
        lemma_system_refusal(names, n - 1);
    }
}

proof fn lemma_no_system_refusal(names: Seq<String>, n: int)
    requires
        forall|i: int| 0 <= i < n ==> #[trigger] nth_system_refusal(names, i) is None,
    ensures
        system_refusal(names, n) is None,
    decreases n,
{
    if n > 0 {
        lemma_no_system_refusal(names, n - 1);
        assert(nth_system_refusal(names, n - 1) is None);
    }
}

} // verus!
