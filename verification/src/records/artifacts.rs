//! The artifacts route: what a request is refused for before its first page, which artifacts it
//! selects, and the walk of a page.
//!
//! Rows are in `(level, ordinal)` order. Ordinals are never reused or renumbered, so a position
//! means the same artifact in every later generation.

use croaring::Bitmap;
use vstd::prelude::*;

use crate::gated_level::{
    check_level, level_refusal, readable, readable_layer, LayerRefusal, RegisteredLayer,
    Registration,
};
use crate::histogram::MaskIdentity;
use crate::records::artifact_rows::{names, Property};
use crate::records::cursor::{
    artifacts_cursor_of, payload_of, ArtifactsCursor, Binding, CursorKey, CursorRefused,
    LayerBinding, Route,
};
use crate::records::items::Served;
use crate::records::plan::text_of;
use crate::records::refused::{
    page_rows_of, page_size, refuse_shape, shape_refusal, RecordsRefused, Refusal,
};
use crate::records::serve::{ItemsCounts, ItemsLimits, Paged};
use crate::records::stretch::{mask_is, same_mask};
use crate::records::walk::{publication_is, same_publication, Publication};
use crate::records::{PageEndedBy, ResponseEndedBy};
use crate::region::RegionVerdict;
use crate::text::{contains_text, holds_text, lower_of, lowercase, same, stands_at};

verus! {

/// One artifacts response's request.
#[derive(Clone, Debug)]
pub struct ArtifactsRequest {
    pub view: String,
    pub layer: String,
    /// Only artifacts at this level, on a levelled layer.
    pub level: Option<u32>,
    /// Only artifacts naming this one among their parents.
    pub parent: Option<u64>,
    /// Only artifacts whose key, or first served text content, contains this, case-insensitively.
    pub q: Option<String>,
    /// Whether the request has a filter: only artifacts with a visible member matching it, and a
    /// `matched_count` column.
    pub filtered: bool,
    /// Every served artifact under the filter, those with no matching member included.
    pub keep_unmatched: bool,
    /// Put the served and matching counts in the head. Refused with a cursor.
    pub count: bool,
    /// Properties, by name, in the order their columns are wanted.
    pub fields: Vec<String>,
    pub page_rows: Option<u32>,
    pub pages: Option<u32>,
    pub cursor: Option<String>,
    pub idset: Option<u32>,
    pub limits: ItemsLimits,
}

/// Why an artifacts request is refused.
#[derive(Debug)]
pub enum ArtifactsRefused {
    /// The request's own arguments.
    Shape(RecordsRefused),
    /// A parent and a text at once.
    ParentWithQ,
    StaleIdSet,
    /// A view this session cannot reach, or one the manifest does not hold.
    UnknownView(String),
    UnknownLayer(String),
    /// A level of a layer whose kind has one.
    OneLevel(String),
    NoSuchLevel { layer: String, held: usize },
    Cursor(CursorRefused),
    UnknownProperty(String),
    RepeatedField(String),
    Filter(String),
}

/// What an artifacts refusal says.
pub enum ArtifactsRefusal {
    Shape(Refusal),
    ParentWithQ,
    StaleIdSet,
    UnknownView(Seq<char>),
    UnknownLayer(Seq<char>),
    OneLevel(Seq<char>),
    NoSuchLevel { layer: Seq<char>, held: usize },
    Cursor,
    UnknownProperty(Seq<char>),
    RepeatedField(Seq<char>),
    Filter(Seq<char>),
}

impl View for ArtifactsRefused {
    type V = ArtifactsRefusal;

    open spec fn view(&self) -> ArtifactsRefusal {
        match *self {
            ArtifactsRefused::Shape(why) => ArtifactsRefusal::Shape(why@),
            ArtifactsRefused::ParentWithQ => ArtifactsRefusal::ParentWithQ,
            ArtifactsRefused::StaleIdSet => ArtifactsRefusal::StaleIdSet,
            ArtifactsRefused::UnknownView(view) => ArtifactsRefusal::UnknownView(view@),
            ArtifactsRefused::UnknownLayer(layer) => ArtifactsRefusal::UnknownLayer(layer@),
            ArtifactsRefused::OneLevel(layer) => ArtifactsRefusal::OneLevel(layer@),
            ArtifactsRefused::NoSuchLevel { layer, held } => ArtifactsRefusal::NoSuchLevel {
                layer: layer@,
                held,
            },
            ArtifactsRefused::Cursor(_) => ArtifactsRefusal::Cursor,
            ArtifactsRefused::UnknownProperty(name) => ArtifactsRefusal::UnknownProperty(name@),
            ArtifactsRefused::RepeatedField(name) => ArtifactsRefusal::RepeatedField(name@),
            ArtifactsRefused::Filter(why) => ArtifactsRefusal::Filter(why@),
        }
    }
}

/// What a layer's refusal says of the layer a request names.
pub open spec fn layer_refusal(layer: Seq<char>, why: LayerRefusal) -> ArtifactsRefusal {
    match why {
        LayerRefusal::Unknown => ArtifactsRefusal::UnknownLayer(layer),
        LayerRefusal::OneLevel(_) => ArtifactsRefusal::OneLevel(layer),
        LayerRefusal::NoSuchLevel { held } => ArtifactsRefusal::NoSuchLevel { layer, held },
    }
}

fn layer_refused(layer: &str, why: LayerRefusal) -> (refused: ArtifactsRefused)
    ensures
        refused@ == layer_refusal(layer@, why),
{
    let layer = String::from_str(layer);
    match why {
        LayerRefusal::Unknown => ArtifactsRefused::UnknownLayer(layer),
        LayerRefusal::OneLevel(_) => ArtifactsRefused::OneLevel(layer),
        LayerRefusal::NoSuchLevel { held } => ArtifactsRefused::NoSuchLevel { layer, held },
    }
}

/// Whether one of the first `n` names is of a property.
pub open spec fn property_before(fields: Seq<String>, n: int, property: Property) -> bool {
    exists|k: int| 0 <= k < n && Property::named((#[trigger] fields[k])@) == Some(property)
}

/// Why the name at `i` is refused: no property of that name, or one named before.
pub open spec fn nth_property_refusal(fields: Seq<String>, i: int) -> Option<ArtifactsRefusal> {
    match Property::named(fields[i]@) {
        None => Some(ArtifactsRefusal::UnknownProperty(fields[i]@)),
        Some(property) => if property_before(fields, i, property) {
            Some(ArtifactsRefusal::RepeatedField(fields[i]@))
        } else {
            None
        },
    }
}

/// The first refusal among the first `n` names.
pub open spec fn properties_refusal(fields: Seq<String>, n: int) -> Option<ArtifactsRefusal>
    decreases n,
{
    if n <= 0 {
        None
    } else if properties_refusal(fields, n - 1) is Some {
        properties_refusal(fields, n - 1)
    } else {
        nth_property_refusal(fields, n - 1)
    }
}

proof fn lemma_properties_refusal_stays(fields: Seq<String>, n: int, more: int)
    requires
        n <= more,
        properties_refusal(fields, n) is Some,
    ensures
        properties_refusal(fields, more) == properties_refusal(fields, n),
    decreases more - n,
{
    if n < more {
        lemma_properties_refusal_stays(fields, n, more - 1);
    }
}

/// The properties a request names, in its order.
pub fn resolve_properties(fields: &Vec<String>) -> (out: Result<Vec<Property>, ArtifactsRefused>)
    ensures
        out is Err <==> properties_refusal(fields@, fields@.len() as int) is Some,
        out matches Err(why) ==> properties_refusal(fields@, fields@.len() as int) == Some(why@),
        out matches Ok(properties) ==> properties@.len() == fields@.len() && forall|i: int|
            0 <= i < fields@.len() ==> Property::named((#[trigger] fields@[i])@) == Some(
                properties@[i],
            ),
{
    let mut properties: Vec<Property> = Vec::new();
    let mut i: usize = 0;
    while i < fields.len()
        invariant
            i <= fields@.len(),
            properties@.len() == i,
            properties_refusal(fields@, i as int) is None,
            forall|k: int|
                0 <= k < i ==> Property::named((#[trigger] fields@[k])@) == Some(properties@[k]),
        decreases fields@.len() - i,
    {
        match Property::parse(fields[i].as_str()) {
            None => {
                proof {
                    lemma_properties_refusal_stays(fields@, i + 1, fields@.len() as int);
                }
                return Err(ArtifactsRefused::UnknownProperty(fields[i].clone()));
            },
            Some(property) => {
                let repeated = names(&properties, property);
                assert(repeated == property_before(fields@, i as int, property)) by {
                    if repeated {
                        let k = choose|k: int| 0 <= k < i && properties@[k] == property;
                        assert(Property::named(fields@[k]@) == Some(property));
                    }
                    if property_before(fields@, i as int, property) {
                        let k = choose|k: int|
                            0 <= k < i && Property::named((#[trigger] fields@[k])@) == Some(
                                property,
                            );
                        assert(properties@[k] == property);
                    }
                }
                if repeated {
                    proof {
                        lemma_properties_refusal_stays(fields@, i + 1, fields@.len() as int);
                    }
                    return Err(ArtifactsRefused::RepeatedField(fields[i].clone()));
                }
                properties.push(property);
            },
        }
        i += 1;
    }
    Ok(properties)
}

/// Whether a binding is the one an artifacts read of a request has.
pub open spec fn artifacts_binding(
    binding: Binding,
    req: ArtifactsRequest,
    served: Served,
    layer: RegisteredLayer,
) -> bool {
    &&& binding.route == Route::Artifacts
    &&& binding.view@ == req.view@
    &&& served.incarnation == Some(binding.incarnation)
    &&& binding.auth_data_hash == served.auth_data_hash
    &&& binding.layer matches Some(bound) && bound.name@ == req.layer@ && bound.entity
        == layer.entity && bound.level == req.level
}

/// The artifacts cursor that a token seals under a binding, if it seals one.
pub open spec fn artifacts_resumed(key: CursorKey, binding: Binding, token: Seq<char>) -> Option<
    ArtifactsCursor,
> {
    match payload_of(key, binding, token) {
        Some(payload) => artifacts_cursor_of(payload),
        None => None,
    }
}

/// Why a request is refused, if it is: its shape, a parent with a text, the idset, the view, the
/// layer and level, the cursor, the properties, then the filter. `binding` is the read's.
pub open spec fn artifacts_refusal(
    key: CursorKey,
    req: ArtifactsRequest,
    served: Served,
    reachable: Seq<String>,
    registered: Option<Registration>,
    binding: Binding,
    filter: Option<Seq<char>>,
) -> Option<ArtifactsRefusal> {
    let shape = shape_refusal(req.page_rows, req.pages, req.count, req.cursor is Some);
    let properties = properties_refusal(req.fields@, req.fields@.len() as int);
    if shape is Some {
        Some(ArtifactsRefusal::Shape(shape->0))
    } else if req.parent is Some && req.q is Some {
        Some(ArtifactsRefusal::ParentWithQ)
    } else if req.idset is Some && req.idset->0 != served.idset {
        Some(ArtifactsRefusal::StaleIdSet)
    } else if !served.visible {
        Some(ArtifactsRefusal::UnknownView(req.view@))
    } else if !readable(reachable, registered, req.layer@, req.view@) {
        Some(ArtifactsRefusal::UnknownLayer(req.layer@))
    } else if level_refusal(registered->0.layer, req.level) is Some {
        Some(layer_refusal(req.layer@, level_refusal(registered->0.layer, req.level)->0))
    } else if served.incarnation is None {
        Some(ArtifactsRefusal::UnknownView(req.view@))
    } else if req.cursor is Some && artifacts_resumed(key, binding, req.cursor->0@) is None {
        Some(ArtifactsRefusal::Cursor)
    } else if req.cursor is Some && artifacts_resumed(key, binding, req.cursor->0@)->0.idset
        != served.idset {
        Some(ArtifactsRefusal::StaleIdSet)
    } else if properties is Some {
        properties
    } else if filter is Some {
        Some(ArtifactsRefusal::Filter(filter->0))
    } else {
        None
    }
}

/// The filter's rows over the whole view, and the publication and mask they are held under.
pub struct HeldFilter {
    pub under: Publication,
    pub mask: MaskIdentity,
    pub rows: Bitmap,
}

/// The artifacts route's pager.
pub struct ArtifactsPager {
    /// The layer's own entity when the read began: a layer registered since under the name is
    /// another layer, and the read ends.
    pub layer_entity: u64,
    pub level: Option<u32>,
    pub properties: Vec<Property>,
    pub filtered: bool,
    pub keep_unmatched: bool,
    pub page_rows: u32,
    pub max_page_bytes: usize,
    pub idset: u32,
    pub binding: Binding,
    /// The last `(level, ordinal)` returned or passed over.
    pub scan: Option<(u32, u32)>,
    /// The position the response started from: a stop is honoured only past it.
    pub origin: Option<(u32, u32)>,
    pub filter: Option<HeldFilter>,
    pub region: Option<RegionVerdict>,
}

/// The cursor a request resumes from, or why it is refused.
fn resume(key: &CursorKey, binding: &Binding, token: &str, idset: u32) -> (out: Result<
    ArtifactsCursor,
    ArtifactsRefused,
>)
    ensures
        out matches Ok(cursor) ==> artifacts_resumed(*key, *binding, token@) == Some(cursor)
            && cursor.idset == idset,
        out matches Err(why) ==> match artifacts_resumed(*key, *binding, token@) {
            None => why@ == ArtifactsRefusal::Cursor,
            Some(cursor) => cursor.idset != idset && why@ == ArtifactsRefusal::StaleIdSet,
        },
{
    let payload = match key.open(binding, token) {
        Ok(payload) => payload,
        Err(why) => return Err(ArtifactsRefused::Cursor(why)),
    };
    let cursor = match ArtifactsCursor::decode(payload.as_slice()) {
        Ok(cursor) => cursor,
        Err(why) => return Err(ArtifactsRefused::Cursor(why)),
    };
    if cursor.idset != idset {
        return Err(ArtifactsRefused::StaleIdSet);
    }
    Ok(cursor)
}

/// Whether a read is planned as its request asks.
pub open spec fn plans(
    key: CursorKey,
    req: ArtifactsRequest,
    served: Served,
    registered: Option<Registration>,
    pager: ArtifactsPager,
) -> bool {
    &&& pager.layer_entity == registered->0.layer.entity
    &&& pager.level == req.level
    &&& pager.properties@.len() == req.fields@.len()
    &&& forall|i: int|
        0 <= i < req.fields@.len() ==> Property::named((#[trigger] req.fields@[i])@) == Some(
            pager.properties@[i],
        )
    &&& pager.filtered == req.filtered
    &&& pager.keep_unmatched == req.keep_unmatched
    &&& pager.page_rows == page_size(req.page_rows, req.limits.max_page_rows)
    &&& pager.max_page_bytes == req.limits.max_page_bytes
    &&& pager.idset == served.idset
    &&& artifacts_binding(pager.binding, req, served, registered->0.layer)
    &&& pager.scan == match req.cursor {
        Some(token) => artifacts_resumed(key, pager.binding, token@)->0.scan,
        None => None,
    }
    &&& pager.origin == pager.scan
    &&& pager.filter is None
    &&& pager.region is None
}

/// Everything an artifacts response fixes before its first page, or why the request is refused.
/// `filter` is why the request's filter is not admitted, where it has one that is not.
pub fn plan_artifacts(
    key: &CursorKey,
    req: &ArtifactsRequest,
    served: &Served,
    reachable: &Vec<String>,
    registered: &Option<Registration>,
    filter: &Option<String>,
) -> (out: Result<ArtifactsPager, ArtifactsRefused>)
    ensures
        forall|binding: Binding|
            (served.incarnation is None || *registered is None || artifacts_binding(
                binding,
                *req,
                *served,
                registered->0.layer,
            )) ==> {
                let refusal = #[trigger] artifacts_refusal(
                    *key,
                    *req,
                    *served,
                    reachable@,
                    *registered,
                    binding,
                    text_of(*filter),
                );
                &&& out is Err <==> refusal is Some
                &&& out is Err ==> refusal == Some(out->Err_0@)
            },
        out matches Ok(pager) ==> plans(*key, *req, *served, *registered, pager),
{
    if let Err(why) = refuse_shape(req.page_rows, req.pages, req.count, req.cursor.is_some()) {
        return Err(ArtifactsRefused::Shape(why));
    }
    if req.parent.is_some() && req.q.is_some() {
        return Err(ArtifactsRefused::ParentWithQ);
    }
    if let Some(presented) = req.idset {
        if presented != served.idset {
            return Err(ArtifactsRefused::StaleIdSet);
        }
    }
    if !served.visible {
        return Err(ArtifactsRefused::UnknownView(String::from_str(req.view.as_str())));
    }
    let layer = match readable_layer(reachable, registered, req.layer.as_str(), req.view.as_str()) {
        Ok(layer) => layer,
        Err(why) => return Err(layer_refused(req.layer.as_str(), why)),
    };
    if let Err(why) = check_level(layer, req.level) {
        return Err(layer_refused(req.layer.as_str(), why));
    }
    let incarnation: u64 = match served.incarnation {
        Some(incarnation) => incarnation,
        None => return Err(ArtifactsRefused::UnknownView(String::from_str(req.view.as_str()))),
    };
    let binding = Binding {
        route: Route::Artifacts,
        view: String::from_str(req.view.as_str()),
        incarnation,
        auth_data_hash: served.auth_data_hash,
        layer: Some(
            LayerBinding {
                name: String::from_str(req.layer.as_str()),
                entity: layer.entity,
                level: req.level,
            },
        ),
    };
    assert forall|other: Binding|
        artifacts_binding(other, *req, *served, *layer) implies #[trigger] other.data()
        == binding.data() by {}
    let scan: Option<(u32, u32)> = match &req.cursor {
        None => None,
        Some(token) => match resume(key, &binding, token.as_str(), served.idset) {
            Ok(cursor) => cursor.scan,
            Err(why) => return Err(why),
        },
    };
    let properties = match resolve_properties(&req.fields) {
        Ok(properties) => properties,
        Err(why) => return Err(why),
    };
    if let Some(why) = filter {
        return Err(ArtifactsRefused::Filter(String::from_str(why.as_str())));
    }
    Ok(
        ArtifactsPager {
            layer_entity: layer.entity,
            level: req.level,
            properties,
            filtered: req.filtered,
            keep_unmatched: req.keep_unmatched,
            page_rows: page_rows_of(req.page_rows, req.limits.max_page_rows),
            max_page_bytes: req.limits.max_page_bytes,
            idset: served.idset,
            binding,
            scan,
            origin: scan,
            filter: None,
            region: None,
        },
    )
}

/// Whether a served artifact passes a parent and a text: the narrowings that decide which served
/// artifacts a read is of, before the filter. Under a parent, `parent` holds its position where the
/// viewer is served it, and otherwise nothing is its child.
pub open spec fn selects(
    parent: Option<Option<(u32, u32)>>,
    parents: Seq<(u32, u32)>,
    q: Option<Seq<char>>,
    key: Option<Seq<char>>,
    content: Option<Seq<char>>,
) -> bool {
    &&& parent matches Some(at) ==> at is Some && parents.contains(at->0)
    &&& q matches Some(q) ==> {
        ||| key is Some && holds_text(lower_of(key->0), lower_of(q))
        ||| content is Some && holds_text(lower_of(content->0), lower_of(q))
    }
}

/// Whether a text holds a lowercased one, whatever its case.
fn mentions(text: &str, needle: &str) -> (yes: bool)
    ensures
        yes == holds_text(lower_of(text@), needle@),
{
    let lowered = lowercase(text);
    contains_text(lowered.as_str(), needle)
}

/// Whether a served artifact passes the request's parent and text.
pub fn selected(
    parent: Option<Option<(u32, u32)>>,
    parents: &Vec<(u32, u32)>,
    q: &Option<String>,
    key: &Option<String>,
    content: &Vec<String>,
) -> (yes: bool)
    ensures
        yes == selects(
            parent,
            parents@,
            text_of(*q),
            text_of(*key),
            if content@.len() > 0 {
                Some(content@[0]@)
            } else {
                None
            },
        ),
{
    if let Some(at) = parent {
        match at {
            None => return false,
            Some((level, ordinal)) => {
                if !lists_position(parents, level, ordinal) {
                    return false;
                }
            },
        }
    }
    if let Some(q) = q {
        let needle = lowercase(q.as_str());
        let in_key = match key {
            Some(key) => mentions(key.as_str(), needle.as_str()),
            None => false,
        };
        if !in_key {
            if content.len() == 0 || !mentions(content[0].as_str(), needle.as_str()) {
                return false;
            }
        }
    }
    true
}

/// Whether a list holds a position.
fn lists_position(list: &Vec<(u32, u32)>, level: u32, ordinal: u32) -> (yes: bool)
    ensures
        yes == list@.contains((level, ordinal)),
{
    let mut i: usize = 0;
    while i < list.len()
        invariant
            i <= list@.len(),
            forall|k: int| 0 <= k < i ==> list@[k] != (level, ordinal),
        decreases list@.len() - i,
    {
        if list[i].0 == level && list[i].1 == ordinal {
            assert(list@[i as int] == (level, ordinal));
            return true;
        }
        i += 1;
    }
    false
}

/// Where a requested parent sits: where its entity was located, if that is in the layer asked for
/// and what is served there is the entity.
pub open spec fn parent_at(
    same_shard: bool,
    located: Option<(String, u32, u32)>,
    layer: Seq<char>,
    entity: u64,
    served: Option<u64>,
) -> Option<(u32, u32)> {
    match located {
        Some((name, level, ordinal)) => if same_shard && name@ == layer && served == Some(entity) {
            Some((level, ordinal))
        } else {
            None
        },
        None => None,
    }
}

/// Where a requested parent sits, where this viewer is served it. `located` is the layer, level and
/// ordinal its entity has, where the identifier is of this shard and an artifact has the entity, and
/// `served` the entity of the artifact this viewer is served there.
pub fn parent_position(
    same_shard: bool,
    located: &Option<(String, u32, u32)>,
    layer: &str,
    entity: u64,
    served: Option<u64>,
) -> (at: Option<(u32, u32)>)
    ensures
        at == parent_at(same_shard, *located, layer@, entity, served),
{
    if !same_shard {
        return None;
    }
    match located {
        None => None,
        Some((name, level, ordinal)) => {
            if !same(name.as_str(), layer) {
                return None;
            }
            match served {
                Some(found) => if found == entity {
                    Some((*level, *ordinal))
                } else {
                    None
                },
                None => None,
            }
        },
    }
}

/// Whether a served artifact that the request selects makes a row: one with no matching member does
/// not, unless the request keeps those.
pub open spec fn makes_row(selected: bool, matched: Option<u64>, keep_unmatched: bool) -> bool {
    selected && (keep_unmatched || matched != Some(0u64))
}

/// What a walk found of one artifact: whether this viewer is served it and the request selects it,
/// and how many of its visible members match the filter, where there is one.
#[derive(Clone, Copy, Debug, PartialEq, Eq, Structural)]
pub struct Tested {
    pub selected: bool,
    pub matched: Option<u64>,
}

/// How many of the first `n` artifacts are selected.
pub open spec fn selected_before(tested: Seq<Tested>, n: int) -> nat
    decreases n,
{
    if n <= 0 {
        0
    } else {
        selected_before(tested, n - 1) + if tested[n - 1].selected {
            1nat
        } else {
            0nat
        }
    }
}

/// How many of the first `n` artifacts are selected and match the filter, which every artifact does
/// without one.
pub open spec fn matched_before(tested: Seq<Tested>, n: int) -> nat
    decreases n,
{
    if n <= 0 {
        0
    } else {
        matched_before(tested, n - 1) + if tested[n - 1].selected && tested[n - 1].matched != Some(
            0u64,
        ) {
            1nat
        } else {
            0nat
        }
    }
}

/// The artifacts a request selects that this viewer is served, and of them the ones with a visible
/// member matching the filter, over the levels the request reads.
pub fn count(tested: &Vec<Tested>) -> (counts: ItemsCounts)
    ensures
        counts.visible == selected_before(tested@, tested@.len() as int),
        counts.matched == matched_before(tested@, tested@.len() as int),
{
    let mut visible: u64 = 0;
    let mut matched: u64 = 0;
    let total: usize = tested.len();
    let mut i: usize = 0;
    while i < total
        invariant
            i <= total == tested@.len(),
            visible == selected_before(tested@, i as int) <= i,
            matched == matched_before(tested@, i as int) <= i,
        decreases total - i,
    {
        if tested[i].selected {
            visible = visible + 1;
            let counts_it = match tested[i].matched {
                Some(n) => n > 0,
                None => true,
            };
            if counts_it {
                matched = matched + 1;
            }
        }
        i += 1;
    }
    ItemsCounts { visible, matched }
}

/// How many ordinals are walked between two readings of the clock.
pub const CHUNK: u32 = 1024;

/// Why a page's walk stopped.
#[derive(Clone, Copy, Debug, PartialEq, Eq, Structural)]
pub enum Ended {
    /// The page holds the page size.
    Filled,
    /// The next row would have taken it past the byte ceiling.
    Bytes,
    /// The clock stopped the response.
    Stopped(ResponseEndedBy),
    /// No artifact remains.
    End,
}

/// Whether a position comes before another.
pub open spec fn comes_before(a: (u32, u32), b: (u32, u32)) -> bool {
    a.0 < b.0 || (a.0 == b.0 && a.1 < b.1)
}

/// Whether a position is past a scan.
pub open spec fn passes(at: (u32, u32), scan: Option<(u32, u32)>) -> bool {
    match scan {
        None => true,
        Some(scan) => comes_before(scan, at),
    }
}

/// Whether a scan has gone further than another.
pub open spec fn further(a: Option<(u32, u32)>, b: Option<(u32, u32)>) -> bool {
    match a {
        None => false,
        Some(at) => passes(at, b),
    }
}

/// A page's walk of a layer's artifacts.
#[derive(Debug)]
pub struct ArtifactsWalk {
    /// How many artifacts each level of the layer holds.
    pub levels: Vec<u32>,
    /// The one level the read walks, where the request named one.
    pub level: Option<u32>,
    pub scan: Option<(u32, u32)>,
    pub origin: Option<(u32, u32)>,
    pub page_rows: u32,
    pub max_bytes: usize,
    /// The rows the page holds.
    pub rows: u32,
    pub bytes: usize,
    pub since_clock: u32,
}

impl ArtifactsWalk {
    /// The page is not full, and a level named is one the layer holds.
    pub open spec fn wf(&self) -> bool {
        &&& self.rows < self.page_rows
        &&& self.since_clock < CHUNK
        &&& self.levels@.len() <= u32::MAX
        &&& self.level matches Some(level) ==> level < self.levels@.len()
    }

    /// Whether a position is one the read walks.
    pub open spec fn walks(&self, at: (u32, u32)) -> bool {
        &&& at.0 < self.levels@.len()
        &&& at.1 < self.levels@[at.0 as int]
        &&& self.level matches Some(level) ==> at.0 == level
    }

    /// Whether a position is the next one the read walks.
    pub open spec fn is_next(&self, at: (u32, u32)) -> bool {
        &&& self.walks(at)
        &&& passes(at, self.scan)
        &&& forall|other: (u32, u32)| #[trigger]
            self.walks(other) && passes(other, self.scan) ==> !comes_before(other, at)
    }

    /// The page holds no more rows than the page size, and where it holds more than one, no more
    /// bytes than the ceiling.
    pub open spec fn within_ceilings(&self) -> bool {
        &&& self.rows <= self.page_rows
        &&& self.rows > 1 ==> self.bytes <= self.max_bytes
        &&& self.rows == 0 ==> self.bytes == 0
    }

    /// A page's walk from where a read stands, of a layer whose levels hold so many artifacts.
    pub fn begin(pager: &ArtifactsPager, levels: Vec<u32>) -> (walk: ArtifactsWalk)
        ensures
            walk == (ArtifactsWalk {
                levels,
                level: pager.level,
                scan: pager.scan,
                origin: pager.origin,
                page_rows: pager.page_rows,
                max_bytes: pager.max_page_bytes,
                rows: 0,
                bytes: 0,
                since_clock: 0,
            }),
            walk.within_ceilings(),
    {
        ArtifactsWalk {
            levels,
            level: pager.level,
            scan: pager.scan,
            origin: pager.origin,
            page_rows: pager.page_rows,
            max_bytes: pager.max_page_bytes,
            rows: 0,
            bytes: 0,
            since_clock: 0,
        }
    }

    /// The next position the read walks, where one remains.
    pub fn next(&self) -> (at: Option<(u32, u32)>)
        requires
            self.wf(),
        ensures
            at matches Some(at) ==> self.is_next(at),
            at is None ==> forall|other: (u32, u32)|
                !(#[trigger] self.walks(other) && passes(other, self.scan)),
    {
        let (first, last): (u32, u32) = match self.level {
            Some(level) => (level, level + 1),
            None => (0, self.levels.len() as u32),
        };
        let mut level: u32 = first;
        while level < last
            invariant
                self.wf(),
                first <= level,
                first <= last <= self.levels@.len(),
                self.level matches Some(named) ==> first == named && last == named + 1,
                self.level is None ==> first == 0 && last == self.levels@.len(),
                forall|other: (u32, u32)| #[trigger]
                    self.walks(other) && passes(other, self.scan) ==> other.0 >= level,
            decreases last - level,
        {
            let held: u32 = self.levels[level as usize];
            let start: Option<u32> = match self.scan {
                None => Some(0),
                Some((at, ordinal)) => if at > level {
                    None
                } else if at < level {
                    Some(0)
                } else if ordinal < u32::MAX {
                    Some(ordinal + 1)
                } else {
                    None
                },
            };
            if let Some(ordinal) = start {
                if ordinal < held {
                    assert(self.walks((level, ordinal)));
                    assert(passes((level, ordinal), self.scan));
                    return Some((level, ordinal));
                }
            }
            assert forall|other: (u32, u32)| #[trigger]
                self.walks(other) && passes(other, self.scan) implies other.0 >= level + 1 by {
                if other.0 == level {
                    assert(other.1 < held);
                }
            }
            level += 1;
        }
        None
    }

    /// Whether the clock is read before the next position.
    pub fn wants_clock(&self) -> (yes: bool)
        ensures
            yes == (self.since_clock == 0),
    {
        self.since_clock == 0
    }

    /// Whether a stop is honoured here: the page holds a row, or the read has moved on.
    pub fn honours_stop(&self) -> (yes: bool)
        ensures
            yes == (self.rows > 0 || further(self.scan, self.origin)),
    {
        if self.rows > 0 {
            return true;
        }
        match self.scan {
            None => false,
            Some((level, ordinal)) => match self.origin {
                None => true,
                Some((from_level, from_ordinal)) => from_level < level || (from_level == level
                    && from_ordinal < ordinal),
            },
        }
    }

    /// Whether a row of so many bytes would take a page that holds rows past its ceiling.
    pub open spec fn overflows(&self, row: usize) -> bool {
        self.rows > 0 && self.bytes + row > self.max_bytes
    }

    /// Whether the walk passed over a position, taking its row of so many bytes where it makes one.
    pub open spec fn visits(
        &self,
        at: (u32, u32),
        row: Option<usize>,
        ended: Option<Ended>,
        after: ArtifactsWalk,
    ) -> bool {
        &&& after.since_clock == (self.since_clock + 1) % CHUNK as int
        &&& after.levels == self.levels
        &&& after.level == self.level
        &&& after.origin == self.origin
        &&& after.page_rows == self.page_rows
        &&& after.max_bytes == self.max_bytes
        &&& row is Some && self.overflows(row->0) ==> {
            &&& ended == Some(Ended::Bytes)
            &&& after.scan == self.scan
            &&& after.rows == self.rows
            &&& after.bytes == self.bytes
        }
        &&& !(row is Some && self.overflows(row->0)) ==> {
            &&& after.scan == Some(at)
            &&& after.rows == self.rows + if row is Some {
                1int
            } else {
                0int
            }
            &&& after.bytes == self.bytes + if row is Some {
                row->0 as int
            } else {
                0int
            }
            &&& ended == if after.rows == self.page_rows {
                Some(Ended::Filled)
            } else {
                None
            }
        }
    }

    /// Pass over the next position, taking its row of so many bytes where it makes one. The walk
    /// stops before a row that does not fit, and after the one that fills the page.
    pub fn visit(&mut self, at: (u32, u32), row: Option<usize>) -> (ended: Option<Ended>)
        requires
            old(self).wf(),
            old(self).is_next(at),
            row matches Some(bytes) ==> old(self).bytes + bytes <= usize::MAX,
        ensures
            old(self).visits(at, row, ended, *final(self)),
            ended is None ==> final(self).wf(),
            old(self).within_ceilings() ==> final(self).within_ceilings(),
    {
        self.since_clock =
        if self.since_clock + 1 == CHUNK {
            0
        } else {
            self.since_clock + 1
        };
        if let Some(bytes) = row {
            if self.rows > 0 && self.bytes + bytes > self.max_bytes {
                return Some(Ended::Bytes);
            }
            self.bytes = self.bytes + bytes;
            self.rows = self.rows + 1;
        }
        self.scan = Some(at);
        if self.rows == self.page_rows {
            return Some(Ended::Filled);
        }
        None
    }
}

/// What a walk that ended so came to: a page of the rows it holds, or where it holds none, the end
/// or the stop.
pub open spec fn artifacts_page(rows: u32, bytes: usize, ended: Ended) -> Paged {
    if rows == 0 {
        match ended {
            Ended::Stopped(reason) => Paged::Stopped(reason),
            _ => Paged::End,
        }
    } else {
        Paged::Rows {
            rows: rows as u64,
            bytes,
            ended_by: match ended {
                Ended::Filled => PageEndedBy::Rows,
                Ended::Bytes => PageEndedBy::Bytes,
                Ended::Stopped(_) => PageEndedBy::Time,
                Ended::End => PageEndedBy::End,
            },
            then: match ended {
                Ended::Stopped(reason) => Some(reason),
                _ => None,
            },
        }
    }
}

impl ArtifactsPager {
    /// Whether the layer is still the one the read began on.
    pub fn reads(&self, layer: &RegisteredLayer) -> (yes: bool)
        ensures
            yes == (layer.entity == self.layer_entity),
    {
        layer.entity == self.layer_entity
    }

    /// Whether the filter's rows have to be taken again: there is a filter, and none of its rows
    /// are held, or those held are of another publication or mask.
    pub open spec fn stale(&self, publication: Publication, mask: MaskIdentity) -> bool {
        self.filtered && match self.filter {
            None => true,
            Some(held) => !publication_is(held.under, publication) || !mask_is(held.mask, mask),
        }
    }

    /// Whether the filter's rows have to be taken again.
    pub fn wants_filter(&self, publication: &Publication, mask: &MaskIdentity) -> (yes: bool)
        ensures
            yes == self.stale(*publication, *mask),
    {
        self.filtered && match &self.filter {
            None => true,
            Some(held) => !same_publication(&held.under, publication) || !same_mask(
                &held.mask,
                mask,
            ),
        }
    }

    /// Hold a filter's rows, and the coarsest verdict its evaluations have reached.
    pub fn hold_filter(&mut self, held: HeldFilter, region: Option<RegionVerdict>)
        ensures
            *final(self) == (ArtifactsPager {
                filter: Some(held),
                region: RegionVerdict::coarsest_of(old(self).region, region),
                ..*old(self)
            }),
    {
        self.region = RegionVerdict::coarsest(self.region, region);
        self.filter = Some(held);
    }

    /// Whether an artifact makes a row of the page.
    pub fn takes(&self, tested: Tested) -> (yes: bool)
        ensures
            yes == makes_row(tested.selected, tested.matched, self.keep_unmatched),
    {
        let unmatched = match tested.matched {
            Some(count) => count == 0,
            None => false,
        };
        tested.selected && (self.keep_unmatched || !unmatched)
    }

    /// Whether the levels' geometry is accumulated: a property is placed by it.
    pub fn wants_geometry(&self) -> (yes: bool)
        ensures
            yes == (self.properties@.contains(Property::Centroid) || self.properties@.contains(
                Property::Bounds,
            )),
    {
        names(&self.properties, Property::Centroid) || names(&self.properties, Property::Bounds)
    }

    /// The page a walk came to. The read stands where the walk stopped.
    pub fn finish(&mut self, walk: &ArtifactsWalk, ended: Ended) -> (page: Paged)
        ensures
            *final(self) == (ArtifactsPager { scan: walk.scan, ..*old(self) }),
            page == artifacts_page(walk.rows, walk.bytes, ended),
    {
        self.scan = walk.scan;
        if walk.rows == 0 {
            return match ended {
                Ended::Stopped(reason) => Paged::Stopped(reason),
                _ => Paged::End,
            };
        }
        let (ended_by, reason): (PageEndedBy, Option<ResponseEndedBy>) = match ended {
            Ended::Filled => (PageEndedBy::Rows, None),
            Ended::Bytes => (PageEndedBy::Bytes, None),
            Ended::Stopped(reason) => (PageEndedBy::Time, Some(reason)),
            Ended::End => (PageEndedBy::End, None),
        };
        Paged::Rows { rows: walk.rows as u64, bytes: walk.bytes, ended_by, then: reason }
    }

    /// The cursor to resume a read from where it stands: under the read's binding it opens to the
    /// last position returned or passed over.
    pub fn cursor(&self, key: &CursorKey) -> (token: String)
        ensures
            artifacts_resumed(*key, self.binding, token@) == Some(
                ArtifactsCursor { idset: self.idset, scan: self.scan },
            ),
    {
        let cursor = ArtifactsCursor { idset: self.idset, scan: self.scan };
        let payload = cursor.encode();
        key.seal(&self.binding, payload.as_slice())
    }
}

/// A walk passes over the positions it reads in their order, each once: the next one is past the
/// scan, no other that it reads lies between, and there is one next.
pub proof fn law_a_walk_passes_over_every_position_once(
    walk: ArtifactsWalk,
    at: (u32, u32),
    other: (u32, u32),
)
    requires
        walk.is_next(at),
    ensures
        passes(at, walk.scan),
        walk.walks(other) && passes(other, walk.scan) && !passes(other, Some(at)) ==> other == at,
        walk.is_next(other) ==> other == at,
{
}

/// A read is planned for the request it answers: it is bound to the request's view, layer and level,
/// in the incarnation and for the principal served, it is of the layer registered, and it keeps
/// unmatched artifacts where the request does.
pub proof fn law_a_read_is_planned_for_its_request(
    key: CursorKey,
    req: ArtifactsRequest,
    served: Served,
    registered: Option<Registration>,
    pager: ArtifactsPager,
)
    requires
        plans(key, req, served, registered, pager),
    ensures
        pager.layer_entity == registered->0.layer.entity,
        pager.level == req.level,
        pager.filtered == req.filtered,
        pager.keep_unmatched == req.keep_unmatched,
        pager.max_page_bytes == req.limits.max_page_bytes,
        pager.idset == served.idset,
        pager.binding.route is Artifacts,
        pager.binding.view@ == req.view@,
        served.incarnation is Some && pager.binding.incarnation == served.incarnation->0,
        pager.binding.auth_data_hash == served.auth_data_hash,
        pager.binding.layer is Some,
        pager.binding.layer->0.name@ == req.layer@,
        pager.binding.layer->0.entity == registered->0.layer.entity,
        pager.binding.layer->0.level == req.level,
        req.cursor is None ==> pager.scan is None,
        req.page_rows is Some && req.page_rows->0 <= req.limits.max_page_rows ==> pager.page_rows
            == req.page_rows->0,
        req.page_rows is None && req.limits.max_page_rows > 0 ==> pager.page_rows
            == req.limits.max_page_rows,
        pager.page_rows <= req.limits.max_page_rows || pager.page_rows == 1,
        pager.properties@.len() == req.fields@.len(),
        forall|i: int|
            0 <= i < req.fields@.len() ==> ({
                let property = pager.properties@[i];
                let name = (#[trigger] req.fields@[i])@;
                &&& property is Key ==> name == "key"@
                &&& property is Level ==> name == "level"@
                &&& property is Parents ==> name == "parents"@
                &&& property is Target ==> name == "target"@
                &&& property is MaskedCount ==> name == "masked_count"@
                &&& property is Content ==> name == "content"@
                &&& property is Centroid ==> name == "centroid"@
                &&& property is Bounds ==> name == "box"@
                &&& property is Shape ==> name == "shape"@
            }),
{
    assert forall|i: int| 0 <= i < req.fields@.len() implies ({
        let property = pager.properties@[i];
        let name = (#[trigger] req.fields@[i])@;
        &&& property is Key ==> name == "key"@
        &&& property is Level ==> name == "level"@
        &&& property is Parents ==> name == "parents"@
        &&& property is Target ==> name == "target"@
        &&& property is MaskedCount ==> name == "masked_count"@
        &&& property is Content ==> name == "content"@
        &&& property is Centroid ==> name == "centroid"@
        &&& property is Bounds ==> name == "box"@
        &&& property is Shape ==> name == "shape"@
    }) by {
        assert(Property::named(req.fields@[i]@) == Some(pager.properties@[i]));
    }
}

/// A request that is served asks for at least a row and a page, does not count a read it resumes,
/// does not ask for a parent and a text at once, holds its ids under the served idset, names a view
/// the session reaches, and a layer this principal reaches that is registered in that view and is
/// neither deleted nor suppressed, at a level the layer holds. Its cursor opens under the read's
/// binding and is of the served idset.
pub proof fn law_a_served_request_is_in_order(
    key: CursorKey,
    req: ArtifactsRequest,
    served: Served,
    reachable: Seq<String>,
    registered: Option<Registration>,
    binding: Binding,
    filter: Option<Seq<char>>,
)
    requires
        artifacts_refusal(key, req, served, reachable, registered, binding, filter) is None,
    ensures
        req.page_rows != Some(0u32),
        req.pages != Some(0u32),
        !(req.count && req.cursor is Some),
        !(req.parent is Some && req.q is Some),
        req.idset is Some ==> req.idset->0 == served.idset,
        served.visible,
        served.incarnation is Some,
        exists|k: int| 0 <= k < reachable.len() && (#[trigger] reachable[k])@ == req.layer@,
        registered is Some,
        exists|k: int|
            0 <= k < registered->0.layer.views@.len() && (#[trigger] registered->0.layer.views@[k])@
                == req.view@,
        !registered->0.deleted,
        !registered->0.suppressed,
        req.level is Some ==> req.level->0 < registered->0.layer.levels
            && !(registered->0.layer.kind is Flat),
        req.cursor is Some ==> ({
            let cursor = artifacts_resumed(key, binding, req.cursor->0@);
            cursor is Some && cursor->0.idset == served.idset
        }),
        filter is None,
        properties_refusal(req.fields@, req.fields@.len() as int) is None,
{
}

/// A request in order is served.
pub proof fn law_a_request_in_order_is_served(
    key: CursorKey,
    req: ArtifactsRequest,
    served: Served,
    reachable: Seq<String>,
    registered: Option<Registration>,
    binding: Binding,
    filter: Option<Seq<char>>,
    r: int,
    v: int,
)
    requires
        req.page_rows != Some(0u32),
        req.pages != Some(0u32),
        !(req.count && req.cursor is Some),
        !(req.parent is Some && req.q is Some),
        req.idset is Some ==> req.idset->0 == served.idset,
        served.visible,
        served.incarnation is Some,
        0 <= r < reachable.len() && reachable[r]@ == req.layer@,
        registered is Some,
        0 <= v < registered->0.layer.views@.len() && registered->0.layer.views@[v]@ == req.view@,
        !registered->0.deleted,
        !registered->0.suppressed,
        req.level is Some ==> req.level->0 < registered->0.layer.levels
            && !(registered->0.layer.kind is Flat),
        req.cursor is Some ==> ({
            let cursor = artifacts_resumed(key, binding, req.cursor->0@);
            cursor is Some && cursor->0.idset == served.idset
        }),
        filter is None,
        properties_refusal(req.fields@, req.fields@.len() as int) is None,
    ensures
        artifacts_refusal(key, req, served, reachable, registered, binding, filter) is None,
{
}

/// The properties are refused exactly where one is unknown or named twice, and on the first such.
pub proof fn law_properties_are_refused_on_the_first_unknown_or_repeated(
    fields: Seq<String>,
    n: int,
) -> (at: int)
    requires
        0 <= n <= fields.len(),
    ensures
        ({
            let refusal = properties_refusal(fields, n);
            &&& refusal is None ==> forall|i: int|
                0 <= i < n ==> Property::named((#[trigger] fields[i])@) is Some
            &&& refusal is None ==> forall|i: int, k: int|
                0 <= k < i < n ==> Property::named((#[trigger] fields[i])@) != Property::named(
                    (#[trigger] fields[k])@,
                )
            &&& refusal is Some ==> 0 <= at < n && (Property::named(fields[at]@) is None <==> refusal
                == Some(ArtifactsRefusal::UnknownProperty(fields[at]@))) && (Property::named(
                fields[at]@,
            ) is Some ==> refusal == Some(ArtifactsRefusal::RepeatedField(fields[at]@)) && exists|
                k: int,
            |
                0 <= k < at && Property::named((#[trigger] fields[k])@) == Property::named(
                    fields[at]@,
                ))
        }),
    decreases n,
{
    if n <= 0 {
        0
    } else {
        let at = law_properties_are_refused_on_the_first_unknown_or_repeated(fields, n - 1);
        if properties_refusal(fields, n - 1) is Some {
            at
        } else {
            if properties_refusal(fields, n) is None {
                assert forall|i: int, k: int| 0 <= k < i < n implies Property::named(
                    (#[trigger] fields[i])@,
                ) != Property::named((#[trigger] fields[k])@) by {
                    if i == n - 1 && Property::named(fields[i]@) == Property::named(fields[k]@) {
                        assert(property_before(fields, n - 1, Property::named(fields[i]@)->0));
                    }
                }
            }
            n - 1
        }
    }
}

/// An artifact is selected exactly where it names the parent asked for, where one is and the viewer
/// is served it, and its key or its first content holds the text asked for, whatever the case.
pub proof fn law_an_artifact_is_selected_by_parent_and_text(
    parent: Option<Option<(u32, u32)>>,
    parents: Seq<(u32, u32)>,
    q: Option<Seq<char>>,
    key: Option<Seq<char>>,
    content: Option<Seq<char>>,
)
    ensures
        selects(parent, parents, q, key, content) <==> ({
            &&& parent is Some ==> parent->0 is Some && exists|k: int|
                0 <= k < parents.len() && (#[trigger] parents[k]) == parent->0->0
            &&& q is Some ==> ({
                ||| key is Some && exists|before: Seq<char>, after: Seq<char>| #[trigger]
                    (before + lower_of(q->0) + after) == lower_of(key->0)
                ||| content is Some && exists|before: Seq<char>, after: Seq<char>| #[trigger]
                    (before + lower_of(q->0) + after) == lower_of(content->0)
            })
        }),
{
    if parent is Some && parent->0 is Some && parents.contains(parent->0->0) {
        let k = choose|k: int| 0 <= k < parents.len() && parents[k] == parent->0->0;
        assert(parents[k] == parent->0->0);
    }
    if q is Some && key is Some {
        lemma_holds_text(lower_of(key->0), lower_of(q->0));
    }
    if q is Some && content is Some {
        lemma_holds_text(lower_of(content->0), lower_of(q->0));
    }
}

proof fn lemma_holds_text(text: Seq<char>, part: Seq<char>)
    ensures
        holds_text(text, part) <==> exists|before: Seq<char>, after: Seq<char>| #[trigger]
            (before + part + after) == text,
{
    if holds_text(text, part) {
        let at = choose|at: int| #[trigger] stands_at(text, part, at);
        let (before, after) = (text.take(at), text.skip(at + part.len()));
        assert forall|k: int| 0 <= k < part.len() implies part[k] == text[at + k] by {
            assert(text.subrange(at, at + part.len())[k] == part[k]);
        }
        assert((before + part + after) =~= text);
    }
    if exists|before: Seq<char>, after: Seq<char>| #[trigger] (before + part + after) == text {
        let (before, after) = choose|before: Seq<char>, after: Seq<char>| #[trigger]
            (before + part + after) == text;
        let at = before.len() as int;
        assert(text.subrange(at, at + part.len()) =~= part);
        assert(stands_at(text, part, at));
    }
}

/// An artifact makes a row where the request selects it and some visible member of it matches the
/// filter, or there is none, or unmatched ones are kept.
pub proof fn law_an_artifact_makes_a_row_where_it_is_selected_and_matched(
    selected: bool,
    matched: Option<u64>,
    keep_unmatched: bool,
)
    ensures
        makes_row(selected, matched, keep_unmatched) ==> selected,
        selected && keep_unmatched ==> makes_row(selected, matched, keep_unmatched),
        selected && matched is None ==> makes_row(selected, matched, keep_unmatched),
        selected && matched is Some && matched->0 > 0 ==> makes_row(
            selected,
            matched,
            keep_unmatched,
        ),
        !keep_unmatched && matched is Some && matched->0 == 0 ==> !makes_row(
            selected,
            matched,
            keep_unmatched,
        ),
{
}

/// The head counts each artifact the request selects once, and of them each that has a visible
/// member matching the filter, or no filter to match: one more artifact raises a count by one where
/// it is counted, and otherwise leaves both.
pub proof fn law_one_more_artifact_counts_once(tested: Seq<Tested>, more: Tested)
    ensures
        selected_before(Seq::empty(), 0) == 0,
        matched_before(Seq::empty(), 0) == 0,
        selected_before(tested.push(more), (tested.len() + 1) as int) == selected_before(
            tested,
            tested.len() as int,
        ) + if more.selected {
            1int
        } else {
            0
        },
        matched_before(tested.push(more), (tested.len() + 1) as int) == matched_before(
            tested,
            tested.len() as int,
        ) + if more.selected && (more.matched is None || more.matched->0 > 0) {
            1int
        } else {
            0
        },
        matched_before(tested, tested.len() as int) <= selected_before(tested, tested.len() as int),
{
    lemma_counted(tested, tested.push(more), tested.len() as int);
    assert(tested.push(more)[tested.len() as int] == more);
}

proof fn lemma_counted(a: Seq<Tested>, b: Seq<Tested>, n: int)
    requires
        n <= a.len(),
        n <= b.len(),
        forall|k: int| 0 <= k < n ==> a[k] == b[k],
    ensures
        selected_before(a, n) == selected_before(b, n),
        matched_before(a, n) == matched_before(b, n),
        matched_before(a, n) <= selected_before(a, n),
    decreases n,
{
    if n > 0 {
        lemma_counted(a, b, n - 1);
    }
}

/// The next artifact a read walks is one the layer holds, at the level named where one is, after the
/// last passed over by level and then ordinal, and every other such comes after it.
pub proof fn law_the_next_artifact_is_the_first_not_passed_over(
    walk: ArtifactsWalk,
    at: (u32, u32),
    level: u32,
    ordinal: u32,
)
    requires
        walk.is_next(at),
    ensures
        ({
            let (l, o) = at;
            &&& l < walk.levels@.len() && o < walk.levels@[l as int]
            &&& walk.level is Some ==> l == walk.level->0
            &&& walk.scan is Some ==> ({
                let (sl, so) = walk.scan->0;
                sl < l || (sl == l && so < o)
            })
            &&& level < walk.levels@.len() && ordinal < walk.levels@[level as int] && (
            walk.level is Some ==> level == walk.level->0) && (walk.scan is Some ==> ({
                let (sl, so) = walk.scan->0;
                sl < level || (sl == level && so < ordinal)
            })) ==> l < level || (l == level && o <= ordinal)
        }),
{
    let other = (level, ordinal);
    if walk.walks(other) && passes(other, walk.scan) {
        assert(!comes_before(other, at));
    }
}

/// A read that has a next artifact nowhere has passed over every one it walks.
pub proof fn law_a_read_without_a_next_artifact_has_passed_over_all(
    walk: ArtifactsWalk,
    level: u32,
    ordinal: u32,
)
    requires
        forall|other: (u32, u32)| !(#[trigger] walk.walks(other) && passes(other, walk.scan)),
        level < walk.levels@.len(),
        ordinal < walk.levels@[level as int],
        walk.level is Some ==> level == walk.level->0,
    ensures
        walk.scan is Some,
        ({
            let (sl, so) = walk.scan->0;
            level < sl || (level == sl && ordinal <= so)
        }),
{
    assert(walk.walks((level, ordinal)));
}

/// A page says how many rows it holds and why its walk ended: full, at its bytes, out of time, or at
/// the layer's end. A page without rows is the stop, or the end.
pub proof fn law_an_artifacts_page_says_why_it_ended(rows: u32, bytes: usize, ended: Ended)
    ensures
        ({
            let page = artifacts_page(rows, bytes, ended);
            &&& page is Rows <==> rows > 0
            &&& page is Rows ==> page->rows == rows && page->bytes == bytes
            &&& page is Rows ==> (page->ended_by is Rows <==> ended is Filled)
            &&& page is Rows ==> (page->ended_by is Bytes <==> ended is Bytes)
            &&& page is Rows ==> (page->ended_by is Time <==> ended is Stopped)
            &&& page is Rows ==> (page->ended_by is End <==> ended is End)
            &&& page is Rows ==> (page->then is Some <==> ended is Stopped)
            &&& page is Rows && ended is Stopped ==> page->then->0 == ended->Stopped_0
            &&& page is Stopped <==> rows == 0 && ended is Stopped
            &&& page is Stopped ==> page->Stopped_0 == ended->Stopped_0
        }),
{
}

/// The filter's rows are taken again exactly where there is a filter and what is held of it is not of
/// the page's own publication and mask.
pub proof fn law_the_filter_is_taken_again_where_it_is_of_another_page(
    pager: ArtifactsPager,
    publication: Publication,
    mask: MaskIdentity,
)
    ensures
        pager.stale(publication, mask) <==> pager.filtered && !({
            let held = pager.filter->0;
            &&& pager.filter is Some
            &&& held.under.prefix@ == publication.prefix@
            &&& held.under.segments_version == publication.segments_version
            &&& held.under.overlay == publication.overlay
            &&& held.mask.token_id == mask.token_id
            &&& held.mask.segments_version == mask.segments_version
            &&& held.mask.overlay_version == mask.overlay_version
            &&& held.mask.fragment_identity@ == mask.fragment_identity@
            &&& held.mask.fragment_watermark == mask.fragment_watermark
        }),
{
}

/// A requested parent is placed exactly where its identifier is of this shard, its entity was
/// located in the layer asked for, and the viewer is served that very entity there; it sits at the
/// level and ordinal it was located at.
pub proof fn law_a_parent_is_placed_where_the_viewer_is_served_it(
    same_shard: bool,
    located: Option<(String, u32, u32)>,
    layer: Seq<char>,
    entity: u64,
    served: Option<u64>,
)
    ensures
        ({
            let at = parent_at(same_shard, located, layer, entity, served);
            &&& at is Some ==> same_shard && located is Some && served is Some && served->0
                == entity
            &&& located matches Some((name, level, ordinal)) ==> {
                &&& at is Some ==> name@ == layer && at == Some((level, ordinal))
                &&& same_shard && name@ == layer && served == Some(entity) ==> at is Some
            }
        }),
{
}

/// A walk stops before a row exactly where the page already holds one and the row's bytes would
/// take it past its ceiling; it then stays where it was. Otherwise it moves onto the position, and
/// counts the row and its bytes where there is one. It is filled exactly where it then holds as
/// many rows as a page does.
pub proof fn law_a_walk_takes_each_row_that_fits(
    before: ArtifactsWalk,
    at: (u32, u32),
    row: Option<usize>,
    ended: Option<Ended>,
    after: ArtifactsWalk,
)
    requires
        before.visits(at, row, ended, after),
    ensures
        ended == Some(Ended::Bytes) <==> row is Some && before.rows > 0 && before.bytes + row->0
            > before.max_bytes,
        ended == Some(Ended::Bytes) ==> after.scan == before.scan && after.rows == before.rows
            && after.bytes == before.bytes,
        ended != Some(Ended::Bytes) ==> after.scan == Some(at),
        ended != Some(Ended::Bytes) && row is Some ==> after.rows == before.rows + 1 && after.bytes
            == before.bytes + row->0,
        ended != Some(Ended::Bytes) && row is None ==> after.rows == before.rows && after.bytes
            == before.bytes,
        ended == Some(Ended::Filled) <==> ended != Some(Ended::Bytes) && after.rows
            == before.page_rows,
        ended is None || ended == Some(Ended::Bytes) || ended == Some(Ended::Filled),
        after.levels == before.levels,
        after.level == before.level,
        after.origin == before.origin,
        after.page_rows == before.page_rows,
        after.max_bytes == before.max_bytes,
{
}

} // verus!
