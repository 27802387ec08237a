//! The items route: what a request is refused for before its first page, and what a response fixes
//! where it is not.

use vstd::prelude::*;

use crate::records::cursor::{
    items_cursor_of, payload_of, Binding, CursorKey, CursorRefused, ItemsCursor, Route,
};
use crate::records::columns::SystemField;
use crate::records::plan::{
    declared_at, name_of, plan_refusal, resolves_to, scopes, DeclaredField, FieldPlan, PlanRefusal,
    PlanRefused, ScopedAnswer, ScopedField, text_of,
};
use crate::records::refused::{
    page_rows_of, page_size, refuse_shape, shape_refusal, RecordsRefused, Refusal,
};
use crate::records::serve::ItemsLimits;
use crate::records::stretch::{ceiling_of, target_of, Walk};
use crate::records::walk::Position;
use crate::records::RecordsOrder;

verus! {

/// One items response's request.
#[derive(Clone, Debug)]
pub struct ItemsRequest {
    pub view: String,
    /// Declared fields, by name, in the order their columns are wanted. A group-scoped field may be
    /// pinned as `<field>@<key>`.
    pub fields: Vec<String>,
    /// Any of `position`, `external_id` and `labels`, in the order their columns are wanted.
    pub system_fields: Vec<String>,
    /// Every visible item with a `tessera:matched` column, instead of the matching ones only.
    pub keep_unmatched: bool,
    /// Put the visible and matching counts in the head. Refused with a cursor.
    pub count: bool,
    /// `None` takes the cursor's order, or with no cursor the plan's choice.
    pub order: Option<RecordsOrder>,
    /// Rows per page; `None` is the ceiling.
    pub page_rows: Option<u32>,
    /// The most pages the response may carry; `None` is as many as the budgets allow.
    pub pages: Option<u32>,
    /// A previous response's `next`, unchanged.
    pub cursor: Option<String>,
    /// The idset the caller holds ids under.
    pub idset: Option<u32>,
    pub limits: ItemsLimits,
}

/// What a request is held against: the served generation's idset, and what the session sees of the
/// view it names.
#[derive(Clone, Debug)]
pub struct Served {
    pub idset: u32,
    /// Whether the session reaches the view.
    pub visible: bool,
    /// The view's incarnation, where the manifest holds the view.
    pub incarnation: Option<u64>,
    pub auth_data_hash: [u8; 32],
}

/// The fields a request can name, and what each name the request uses resolves to under the view.
#[derive(Debug)]
pub struct Fields {
    pub declared: Vec<DeclaredField>,
    pub families: Vec<ScopedField>,
    /// One answer for each field of the request.
    pub scoped: Vec<ScopedAnswer>,
}

impl Fields {
    /// There is an answer for each field named, and a resolved one is of a family there is.
    pub open spec fn answers(&self, fields: Seq<String>) -> bool {
        &&& self.scoped@.len() == fields.len()
        &&& forall|i: int|
            0 <= i < fields.len() && self.scoped@[i] is Resolved && declared_at(
                self.declared@,
                name_of((#[trigger] fields[i])@),
            ) is None ==> scopes(self.families@, name_of(fields[i]@))
    }
}

/// Why an items request is refused.
#[derive(Debug)]
pub enum ItemsRefused {
    /// The request's own arguments.
    Shape(RecordsRefused),
    StaleIdSet,
    /// A view this session cannot reach, or one the manifest does not hold.
    UnknownView(String),
    Cursor(CursorRefused),
    Plan(PlanRefused),
    Filter(String),
}

/// What an items refusal says.
pub enum ItemsRefusal {
    Shape(Refusal),
    StaleIdSet,
    UnknownView(Seq<char>),
    Cursor,
    Plan(PlanRefusal),
    Filter(Seq<char>),
}

impl View for ItemsRefused {
    type V = ItemsRefusal;

    open spec fn view(&self) -> ItemsRefusal {
        match *self {
            ItemsRefused::Shape(why) => ItemsRefusal::Shape(why@),
            ItemsRefused::StaleIdSet => ItemsRefusal::StaleIdSet,
            ItemsRefused::UnknownView(view) => ItemsRefusal::UnknownView(view@),
            ItemsRefused::Cursor(_) => ItemsRefusal::Cursor,
            ItemsRefused::Plan(why) => ItemsRefusal::Plan(why@),
            ItemsRefused::Filter(why) => ItemsRefusal::Filter(why@),
        }
    }
}

/// Whether a binding is the one an items read of a request has.
pub open spec fn items_binding(binding: Binding, req: ItemsRequest, served: Served) -> bool {
    &&& binding.route == Route::Items
    &&& binding.view@ == req.view@
    &&& served.incarnation == Some(binding.incarnation)
    &&& binding.auth_data_hash == served.auth_data_hash
    &&& binding.layer is None
}

/// The items cursor that a token seals under a binding, if it seals one.
pub open spec fn resumed_of(key: CursorKey, binding: Binding, token: Seq<char>) -> Option<
    ItemsCursor,
> {
    match payload_of(key, binding, token) {
        Some(payload) => items_cursor_of(payload),
        None => None,
    }
}

/// Why a cursor is refused for a request, if it is: it does not open to a position, it is of
/// another idset, or it is in another order than the one asked for.
pub open spec fn cursor_refusal(
    key: CursorKey,
    binding: Binding,
    token: Seq<char>,
    idset: u32,
    order: Option<RecordsOrder>,
) -> Option<ItemsRefusal> {
    match resumed_of(key, binding, token) {
        None => Some(ItemsRefusal::Cursor),
        Some(cursor) => if cursor.idset != idset {
            Some(ItemsRefusal::StaleIdSet)
        } else if order is Some && order->0 != cursor.position.order {
            Some(ItemsRefusal::Cursor)
        } else {
            None
        },
    }
}

/// Why a request is refused, if it is: the request's shape, the idset, the view, the cursor, the
/// fields, then the filter. `binding` is the read's, where the manifest holds the view.
pub open spec fn items_refusal(
    key: CursorKey,
    req: ItemsRequest,
    served: Served,
    binding: Binding,
    fields: Fields,
    filter: Option<Seq<char>>,
) -> Option<ItemsRefusal> {
    let shape = shape_refusal(req.page_rows, req.pages, req.count, req.cursor is Some);
    let plan = plan_refusal(
        fields.declared@,
        req.fields@,
        fields.scoped@,
        req.system_fields@,
    );
    if shape is Some {
        Some(ItemsRefusal::Shape(shape->0))
    } else if req.idset is Some && req.idset->0 != served.idset {
        Some(ItemsRefusal::StaleIdSet)
    } else if !served.visible || served.incarnation is None {
        Some(ItemsRefusal::UnknownView(req.view@))
    } else if req.cursor is Some && cursor_refusal(
        key,
        binding,
        req.cursor->0@,
        served.idset,
        req.order,
    ) is Some {
        cursor_refusal(key, binding, req.cursor->0@, served.idset, req.order)
    } else if plan is Some {
        Some(ItemsRefusal::Plan(plan->0))
    } else if filter is Some {
        Some(ItemsRefusal::Filter(filter->0))
    } else {
        None
    }
}

/// Everything a response fixes before its first page.
#[derive(Debug)]
pub struct Planned {
    pub plan: FieldPlan,
    pub order: RecordsOrder,
    pub page_rows: u32,
    pub idset: u32,
    pub binding: Binding,
}

/// The order and the walk a request is served with, which a cursor fixes where there is one.
pub open spec fn served_as(
    req: ItemsRequest,
    resumed: Option<ItemsCursor>,
    planned: Planned,
    walk: Walk,
) -> bool {
    &&& planned.order == match resumed {
        Some(cursor) => cursor.position.order,
        None => match req.order {
            Some(order) => order,
            None => if planned.plan.reads_records() {
                RecordsOrder::Stored
            } else {
                RecordsOrder::ByMap
            },
        },
    }
    &&& walk.wf()
    &&& walk.position == match resumed {
        Some(cursor) => cursor.position,
        None => Position { order: planned.order, scan: None },
    }
    &&& walk.origin == walk.position.scan
    &&& walk.target == target_of(
        match resumed {
            Some(cursor) => cursor.stretch,
            None => planned.page_rows,
        },
        req.limits.max_page_bytes,
    )
    &&& walk.ceiling == ceiling_of(req.limits.max_page_bytes)
    &&& walk.keep_unmatched == req.keep_unmatched
    &&& walk.stretch is None
    &&& walk.region is None
}

/// Whether a response is planned as its request asks and its fields resolve.
pub open spec fn plans(
    key: CursorKey,
    req: ItemsRequest,
    served: Served,
    fields: Fields,
    planned: Planned,
    walk: Walk,
) -> bool {
    &&& planned.plan.resolves(
        fields.declared@,
        fields.families@,
        req.fields@,
        fields.scoped@,
        req.system_fields@,
    )
    &&& planned.page_rows == page_size(req.page_rows, req.limits.max_page_rows)
    &&& planned.idset == served.idset
    &&& items_binding(planned.binding, req, served)
    &&& served_as(
        req,
        match req.cursor {
            Some(token) => resumed_of(key, planned.binding, token@),
            None => None,
        },
        planned,
        walk,
    )
}

/// The cursor a request resumes from, or why it is refused.
fn resume(
    key: &CursorKey,
    binding: &Binding,
    token: &str,
    idset: u32,
    order: Option<RecordsOrder>,
) -> (out: Result<ItemsCursor, ItemsRefused>)
    ensures
        out is Err <==> cursor_refusal(*key, *binding, token@, idset, order) is Some,
        out matches Err(why) ==> cursor_refusal(*key, *binding, token@, idset, order) == Some(why@),
        out matches Ok(cursor) ==> resumed_of(*key, *binding, token@) == Some(cursor),
{
    let payload = match key.open(binding, token) {
        Ok(payload) => payload,
        Err(why) => return Err(ItemsRefused::Cursor(why)),
    };
    let cursor = match ItemsCursor::decode(payload.as_slice()) {
        Ok(cursor) => cursor,
        Err(why) => return Err(ItemsRefused::Cursor(why)),
    };
    if cursor.idset != idset {
        return Err(ItemsRefused::StaleIdSet);
    }
    if let Some(asked) = order {
        if asked != cursor.position.order {
            return Err(ItemsRefused::Cursor(CursorRefused));
        }
    }
    Ok(cursor)
}

/// The binding of an items read.
fn bind(req: &ItemsRequest, served: &Served, incarnation: u64) -> (binding: Binding)
    requires
        served.incarnation == Some(incarnation),
    ensures
        items_binding(binding, *req, *served),
{
    Binding {
        route: Route::Items,
        view: String::from_str(req.view.as_str()),
        incarnation,
        auth_data_hash: served.auth_data_hash,
        layer: None,
    }
}

/// Everything a response fixes before its first page, or why the request is refused. `filter` is
/// why the request's filter is not admitted, where it has one that is not.
pub fn plan_items(
    key: &CursorKey,
    req: &ItemsRequest,
    served: &Served,
    fields: &Fields,
    filter: &Option<String>,
) -> (out: Result<(Planned, Walk), ItemsRefused>)
    requires
        fields.answers(req.fields@),
    ensures
        forall|binding: Binding|
            (served.incarnation is None || items_binding(binding, *req, *served)) ==> {
                let refusal = #[trigger] items_refusal(
                    *key,
                    *req,
                    *served,
                    binding,
                    *fields,
                    text_of(*filter),
                );
                &&& out is Err <==> refusal is Some
                &&& out is Err ==> refusal == Some(out->Err_0@)
            },
        out matches Ok((planned, walk)) ==> plans(*key, *req, *served, *fields, planned, walk),
{
    if let Err(why) = refuse_shape(req.page_rows, req.pages, req.count, req.cursor.is_some()) {
        return Err(ItemsRefused::Shape(why));
    }
    if let Some(presented) = req.idset {
        if presented != served.idset {
            return Err(ItemsRefused::StaleIdSet);
        }
    }
    if !served.visible {
        return Err(ItemsRefused::UnknownView(String::from_str(req.view.as_str())));
    }
    let binding = match served.incarnation {
        Some(incarnation) => bind(req, served, incarnation),
        None => return Err(ItemsRefused::UnknownView(String::from_str(req.view.as_str()))),
    };
    assert forall|other: Binding| items_binding(other, *req, *served) implies #[trigger]
        other.data() == binding.data() by {}
    let resumed: Option<ItemsCursor> = match &req.cursor {
        None => None,
        Some(token) => match resume(key, &binding, token.as_str(), served.idset, req.order) {
            Ok(cursor) => Some(cursor),
            Err(why) => return Err(why),
        },
    };
    let plan = match FieldPlan::resolve(
        &fields.declared,
        &fields.families,
        &req.fields,
        &fields.scoped,
        &req.system_fields,
    ) {
        Ok(plan) => plan,
        Err(why) => return Err(ItemsRefused::Plan(why)),
    };
    if let Some(why) = filter {
        return Err(ItemsRefused::Filter(String::from_str(why.as_str())));
    }
    let order: RecordsOrder = match resumed {
        Some(cursor) => cursor.position.order,
        None => match req.order {
            Some(order) => order,
            None => plan.preferred_order(),
        },
    };
    let page_rows: u32 = page_rows_of(req.page_rows, req.limits.max_page_rows);
    let (stretch, position): (u32, Position) = match resumed {
        Some(cursor) => (cursor.stretch, cursor.position),
        None => (page_rows, Position::start(order)),
    };
    let walk = Walk::new(req.keep_unmatched, stretch, req.limits.max_page_bytes, position);
    Ok((Planned { plan, order, page_rows, idset: served.idset, binding }, walk))
}

impl Planned {
    /// The cursor to resume a read from where its walk stands: under the read's binding it opens to
    /// the walk's position and the rows its next stretch spans.
    pub fn cursor_at(&self, key: &CursorKey, walk: &Walk) -> (token: String)
        ensures
            resumed_of(*key, self.binding, token@) == Some(
                ItemsCursor { idset: self.idset, position: walk.position, stretch: walk.target },
            ),
    {
        let cursor = ItemsCursor {
            idset: self.idset,
            position: walk.position,
            stretch: walk.target,
        };
        let payload = cursor.encode();
        key.seal(&self.binding, payload.as_slice())
    }
}

/// A read resumes where it stopped: a request that presents the cursor at a walk's position, and is
/// otherwise served as the one before it was, is served with a walk at that position, in the
/// position's order, whose next stretch spans the rows the walk's would have.
pub proof fn law_a_read_resumes_where_it_stopped(
    req: ItemsRequest,
    stopped: Walk,
    idset: u32,
    planned: Planned,
    resumed: Walk,
)
    requires
        stopped.wf(),
        stopped.ceiling == ceiling_of(req.limits.max_page_bytes),
        served_as(
            req,
            Some(ItemsCursor { idset, position: stopped.position, stretch: stopped.target }),
            planned,
            resumed,
        ),
    ensures
        resumed.position == stopped.position,
        planned.order == stopped.position.order,
        resumed.target == stopped.target,
        resumed.origin == stopped.position.scan,
{
}

/// A response is planned for the request it answers: it is bound to the request's view, in the
/// incarnation and for the principal served, it keeps unmatched rows where the request does, and its
/// pages are as long as asked for within the ceiling.
pub proof fn law_a_response_is_planned_for_its_request(
    key: CursorKey,
    req: ItemsRequest,
    served: Served,
    fields: Fields,
    planned: Planned,
    walk: Walk,
)
    requires
        plans(key, req, served, fields, planned, walk),
    ensures
        planned.binding.view@ == req.view@,
        planned.binding.route is Items,
        planned.binding.layer is None,
        served.incarnation is Some && planned.binding.incarnation == served.incarnation->0,
        planned.binding.auth_data_hash == served.auth_data_hash,
        planned.idset == served.idset,
        walk.keep_unmatched == req.keep_unmatched,
        planned.page_rows >= 1 || req.page_rows == Some(0u32),
        planned.page_rows <= req.limits.max_page_rows || planned.page_rows == 1,
        req.page_rows is Some ==> planned.page_rows <= req.page_rows->0,
        req.page_rows is Some && req.page_rows->0 <= req.limits.max_page_rows ==> planned.page_rows
            == req.page_rows->0,
        req.page_rows is None && req.limits.max_page_rows > 0 ==> planned.page_rows
            == req.limits.max_page_rows,
        planned.order == walk.position.order,
        walk.origin == walk.position.scan,
{
}

/// A read without a cursor begins before the first row, in the order asked for. Where none is, it is
/// stored order where some field is read from the record store, and map order otherwise.
pub proof fn law_a_fresh_read_begins_at_the_start(
    key: CursorKey,
    req: ItemsRequest,
    served: Served,
    fields: Fields,
    planned: Planned,
    walk: Walk,
)
    requires
        plans(key, req, served, fields, planned, walk),
        req.cursor is None,
    ensures
        walk.position.scan is None,
        req.order is Some ==> planned.order == req.order->0,
        req.order is None ==> (planned.order is Stored <==> exists|i: int|
            0 <= i < planned.plan.named@.len() && (#[trigger] planned.plan.named@[i]).home is Record),
{
}

/// A request that is served asks for at least a row and a page, does not count a read it resumes,
/// holds its ids under the served idset, and names a view that the session reaches and the manifest
/// holds. Its cursor, if it presents one, opens under the request's binding, is of the served idset,
/// and is of the order asked for.
pub proof fn law_a_served_request_is_in_order(
    key: CursorKey,
    req: ItemsRequest,
    served: Served,
    binding: Binding,
    fields: Fields,
    filter: Option<Seq<char>>,
)
    requires
        items_refusal(key, req, served, binding, fields, filter) is None,
    ensures
        req.page_rows != Some(0u32),
        req.pages != Some(0u32),
        !(req.count && req.cursor is Some),
        req.idset is Some ==> req.idset->0 == served.idset,
        served.visible,
        served.incarnation is Some,
        filter is None,
        req.cursor is Some ==> ({
            let cursor = resumed_of(key, binding, req.cursor->0@);
            &&& cursor is Some
            &&& cursor->0.idset == served.idset
            &&& req.order is Some ==> req.order->0 == cursor->0.position.order
        }),
        plan_refusal(fields.declared@, req.fields@, fields.scoped@, req.system_fields@) is None,
{
}

/// A request in order is served.
pub proof fn law_a_request_in_order_is_served(
    key: CursorKey,
    req: ItemsRequest,
    served: Served,
    binding: Binding,
    fields: Fields,
    filter: Option<Seq<char>>,
)
    requires
        req.page_rows != Some(0u32),
        req.pages != Some(0u32),
        !(req.count && req.cursor is Some),
        req.idset is Some ==> req.idset->0 == served.idset,
        served.visible,
        served.incarnation is Some,
        filter is None,
        req.cursor is Some ==> ({
            let cursor = resumed_of(key, binding, req.cursor->0@);
            &&& cursor is Some
            &&& cursor->0.idset == served.idset
            &&& req.order is Some ==> req.order->0 == cursor->0.position.order
        }),
        plan_refusal(fields.declared@, req.fields@, fields.scoped@, req.system_fields@) is None,
    ensures
        items_refusal(key, req, served, binding, fields, filter) is None,
{
}

/// A refusal is of the first thing wrong: the request's own shape, an idset that is not the served
/// one, a view that is not reached, the cursor, the fields, and last the filter.
pub proof fn law_a_request_is_refused_for_the_first_thing_wrong(
    key: CursorKey,
    req: ItemsRequest,
    served: Served,
    binding: Binding,
    fields: Fields,
    filter: Option<Seq<char>>,
)
    ensures
        ({
            let refusal = items_refusal(key, req, served, binding, fields, filter);
            let shapeless = req.page_rows == Some(0u32) || req.pages == Some(0u32) || (req.count
                && req.cursor is Some);
            let stale = req.idset is Some && req.idset->0 != served.idset;
            let unreached = !served.visible || served.incarnation is None;
            &&& refusal is Some && refusal->0 is Shape <==> shapeless
            &&& !shapeless && stale ==> refusal is Some && refusal->0 is StaleIdSet
            &&& !shapeless && !stale && unreached ==> refusal is Some && refusal->0 is UnknownView
                && refusal->0->UnknownView_0 == req.view@
            &&& !shapeless && !stale && !unreached && req.cursor is Some && resumed_of(
                key,
                binding,
                req.cursor->0@,
            ) is None ==> refusal is Some && refusal->0 is Cursor
            &&& req.page_rows == Some(0u32) ==> refusal is Some && refusal->0->Shape_0
                is ZeroPageRows
            &&& req.page_rows != Some(0u32) && req.pages == Some(0u32) ==> refusal is Some
                && refusal->0->Shape_0 is ZeroPages
            &&& req.page_rows != Some(0u32) && req.pages != Some(0u32) && req.count
                && req.cursor is Some ==> refusal is Some && refusal->0->Shape_0 is CountWithCursor
            &&& refusal is Some && refusal->0 is Filter ==> filter is Some && filter->0
                == refusal->0->Filter_0
        }),
{
}

} // verus!
