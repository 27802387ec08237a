//! One served artifact's row, and a page of them as columns.

use vstd::prelude::*;
use vstd::utf8::encode_utf8;

use crate::order::{holds_tie, sorted_distinct, ties, Ranked};
use crate::records::columns::{copy_bytes, copy_strings};
use crate::text::{byte_len, bytes_in, same};

verus! {

/// A property a request can name.
#[derive(Clone, Copy, Debug, PartialEq, Eq, Structural)]
pub enum Property {
    Key,
    Level,
    Parents,
    Target,
    MaskedCount,
    Content,
    Centroid,
    Bounds,
    Shape,
}

impl Property {
    /// The property of a name, if there is one.
    pub open spec fn named(name: Seq<char>) -> Option<Property> {
        if name == "key"@ {
            Some(Property::Key)
        } else if name == "level"@ {
            Some(Property::Level)
        } else if name == "parents"@ {
            Some(Property::Parents)
        } else if name == "target"@ {
            Some(Property::Target)
        } else if name == "masked_count"@ {
            Some(Property::MaskedCount)
        } else if name == "content"@ {
            Some(Property::Content)
        } else if name == "centroid"@ {
            Some(Property::Centroid)
        } else if name == "box"@ {
            Some(Property::Bounds)
        } else if name == "shape"@ {
            Some(Property::Shape)
        } else {
            None
        }
    }

    /// The property of a name, if there is one.
    pub fn parse(name: &str) -> (property: Option<Property>)
        ensures
            property == Property::named(name@),
    {
        if same(name, "key") {
            Some(Property::Key)
        } else if same(name, "level") {
            Some(Property::Level)
        } else if same(name, "parents") {
            Some(Property::Parents)
        } else if same(name, "target") {
            Some(Property::Target)
        } else if same(name, "masked_count") {
            Some(Property::MaskedCount)
        } else if same(name, "content") {
            Some(Property::Content)
        } else if same(name, "centroid") {
            Some(Property::Centroid)
        } else if same(name, "box") {
            Some(Property::Bounds)
        } else if same(name, "shape") {
            Some(Property::Shape)
        } else {
            None
        }
    }

    /// How many columns the property makes.
    pub open spec fn columns(self) -> nat {
        match self {
            Property::Centroid => 2,
            Property::Bounds => 4,
            _ => 1,
        }
    }
}

/// Whether a list holds a property.
pub fn names(properties: &Vec<Property>, property: Property) -> (yes: bool)
    ensures
        yes == properties@.contains(property),
{
    let mut i: usize = 0;
    while i < properties.len()
        invariant
            i <= properties@.len(),
            forall|k: int| 0 <= k < i ==> properties@[k] != property,
        decreases properties@.len() - i,
    {
        if properties[i] == property {
            assert(properties@[i as int] == property);
            return true;
        }
        i += 1;
    }
    false
}

/// What is known of a served artifact. A coordinate is its bit pattern.
#[derive(Debug)]
pub struct ArtifactFacts {
    pub tessera_id: Option<u64>,
    pub level: u32,
    pub masked_count: u64,
    /// The visible members matching the filter, where there is one.
    pub matched: Option<u64>,
    pub key: Option<String>,
    /// For each parent the artifact names, its identifier where this viewer is served it.
    pub parents: Vec<Option<u64>>,
    /// The identifier of the artifact's target, where it is attached to one.
    pub target: Option<u64>,
    pub content: Vec<String>,
    pub centroid: Option<(u64, u64)>,
    pub bbox: Option<(u64, u64, u64, u64)>,
    pub shape: Option<Vec<u8>>,
}

/// One served artifact's row. A coordinate is its bit pattern.
#[derive(Debug)]
pub struct Row {
    pub tessera_id: u64,
    pub key: Option<String>,
    pub level: u32,
    pub parents: Vec<u64>,
    pub target: Option<u64>,
    pub masked_count: u64,
    pub content: Vec<String>,
    pub centroid: Option<(u64, u64)>,
    pub bbox: Option<(u64, u64, u64, u64)>,
    pub shape: Option<Vec<u8>>,
    pub matched: Option<u64>,
}

/// The ids a list holds, each once and ascending.
pub open spec fn ids_of(list: Seq<Option<u64>>, ids: Seq<u64>) -> bool {
    &&& forall|i: int, j: int| 0 <= i < j < ids.len() ==> ids[i] < ids[j]
    &&& forall|id: u64| #[trigger] ids.contains(id) <==> list.contains(Some(id))
}

/// The ids a list holds, each once and ascending.
fn distinct_ids(list: &Vec<Option<u64>>) -> (ids: Vec<u64>)
    ensures
        ids_of(list@, ids@),
{
    let mut held: Vec<u64> = Vec::new();
    let mut i: usize = 0;
    while i < list.len()
        invariant
            i <= list@.len(),
            forall|id: u64| #[trigger] held@.contains(id) <==> list@.take(i as int).contains(Some(id)),
        decreases list@.len() - i,
    {
        let ghost before = held@;
        let ghost seen = list@.take(i as int);
        assert(list@.take(i + 1) =~= seen.push(list@[i as int]));
        if let Some(id) = list[i] {
            held.push(id);
        }
        proof {
            assert forall|id: u64| #[trigger]
                held@.contains(id) <==> list@.take(i + 1).contains(Some(id)) by {
                let more = seen.push(list@[i as int]);
                if before.contains(id) {
                    let k = choose|k: int| 0 <= k < before.len() && before[k] == id;
                    assert(held@[k] == id);
                    let j = choose|j: int| 0 <= j < seen.len() && seen[j] == Some(id);
                    assert(more[j] == Some(id));
                }
                if list@[i as int] == Some(id) {
                    assert(held@.last() == id);
                    assert(more.last() == Some(id));
                }
                if more.contains(Some(id)) && list@[i as int] != Some(id) {
                    let j = choose|j: int| 0 <= j < more.len() && more[j] == Some(id);
                    assert(seen[j] == Some(id));
                    assert(before.contains(id));
                }
                if held@.contains(id) && list@[i as int] != Some(id) {
                    let k = choose|k: int| 0 <= k < held@.len() && held@[k] == id;
                    assert(k < before.len() ==> before[k] == id);
                }
            }
        }
        i += 1;
    }
    assert(list@.take(i as int) =~= list@);
    let ghost whole = held@;
    let ids = sorted_distinct(held);
    proof {
        assert forall|i: int, j: int| 0 <= i < j < ids@.len() implies ids@[i] < ids@[j] by {
            assert(ids@[i].precedes(ids@[j]) && !ids@[j].precedes(ids@[i]));
        }
        assert forall|id: u64| #[trigger] ids@.contains(id) <==> list@.contains(Some(id)) by {
            if whole.contains(id) {
                let k = choose|k: int| 0 <= k < whole.len() && whole[k] == id;
                assert(holds_tie(ids@, whole[k]));
                let i = choose|i: int| 0 <= i < ids@.len() && ties(#[trigger] ids@[i], id);
                assert(ids@[i] == id);
            }
            if ids@.contains(id) {
                let i = choose|i: int| 0 <= i < ids@.len() && ids@[i] == id;
                assert(whole.contains(ids@[i]));
            }
        }
    }
    ids
}

/// Whether a row is the one a served artifact makes under the properties named: one that is not
/// named leaves its column's default.
pub open spec fn row_of(properties: Seq<Property>, facts: ArtifactFacts, row: Row) -> bool {
    let placed = properties.contains(Property::Centroid) || properties.contains(Property::Bounds);
    &&& row.tessera_id == match facts.tessera_id {
        Some(id) => id,
        None => 0,
    }
    &&& row.level == facts.level
    &&& row.masked_count == facts.masked_count
    &&& row.matched == facts.matched
    &&& row.key == if properties.contains(Property::Key) {
        facts.key
    } else {
        None
    }
    &&& if properties.contains(Property::Parents) {
        ids_of(facts.parents@, row.parents@)
    } else {
        row.parents@.len() == 0
    }
    &&& row.target == if properties.contains(Property::Target) {
        facts.target
    } else {
        None
    }
    &&& row.content@ == if properties.contains(Property::Content) {
        facts.content@
    } else {
        Seq::empty()
    }
    &&& row.centroid == if placed {
        facts.centroid
    } else {
        None
    }
    &&& row.bbox == if placed {
        facts.bbox
    } else {
        None
    }
    &&& row.shape == if properties.contains(Property::Shape) {
        facts.shape
    } else {
        None
    }
}

/// The row for a served artifact that the request selects, with the properties named.
pub fn row(properties: &Vec<Property>, facts: ArtifactFacts) -> (row: Row)
    ensures
        row_of(properties@, facts, row),
{
    let placed = names(properties, Property::Centroid) || names(properties, Property::Bounds);
    let parents: Vec<u64> = if names(properties, Property::Parents) {
        distinct_ids(&facts.parents)
    } else {
        Vec::new()
    };
    Row {
        tessera_id: match facts.tessera_id {
            Some(id) => id,
            None => 0,
        },
        key: if names(properties, Property::Key) {
            facts.key
        } else {
            None
        },
        level: facts.level,
        parents,
        target: if names(properties, Property::Target) {
            facts.target
        } else {
            None
        },
        masked_count: facts.masked_count,
        content: if names(properties, Property::Content) {
            facts.content
        } else {
            Vec::new()
        },
        centroid: if placed {
            facts.centroid
        } else {
            None
        },
        bbox: if placed {
            facts.bbox
        } else {
            None
        },
        shape: if names(properties, Property::Shape) {
            facts.shape
        } else {
            None
        },
        matched: facts.matched,
    }
}

/// The bytes a list of texts adds: each text, and its offset.
pub open spec fn texts_weight(texts: Seq<String>) -> nat
    decreases texts.len(),
{
    if texts.len() == 0 {
        0
    } else {
        texts_weight(texts.drop_last()) + 4 + byte_len(texts.last()@)
    }
}

/// The bytes a row adds to a property's columns: its values, offsets and validity.
pub open spec fn property_weight(property: Property, row: Row) -> nat {
    match property {
        Property::Key => 5 + match row.key {
            Some(key) => byte_len(key@),
            None => 0,
        },
        Property::Level => 4,
        Property::Parents => 5 + 8 * row.parents@.len(),
        Property::Target | Property::MaskedCount => 9,
        Property::Content => 4 + texts_weight(row.content@),
        Property::Centroid => 17,
        Property::Bounds => 33,
        Property::Shape => 5 + match row.shape {
            Some(bytes) => bytes@.len(),
            None => 0,
        },
    }
}

/// The bytes a row adds to its properties' columns.
pub open spec fn properties_weight(properties: Seq<Property>, row: Row) -> nat
    decreases properties.len(),
{
    if properties.len() == 0 {
        0
    } else {
        properties_weight(properties.drop_last(), row) + property_weight(properties.last(), row)
    }
}

/// The bytes a row adds to a page: its identifier, its match count under a filter, and its
/// properties.
pub open spec fn row_weight(properties: Seq<Property>, filtered: bool, row: Row) -> nat {
    properties_weight(properties, row) + if filtered {
        16nat
    } else {
        8nat
    }
}

proof fn lemma_texts_weight(texts: Seq<String>, i: int)
    requires
        0 <= i < texts.len(),
    ensures
        texts_weight(texts.take(i + 1)) == texts_weight(texts.take(i)) + 4 + byte_len(texts[i]@),
        texts_weight(texts.take(i + 1)) <= texts_weight(texts),
    decreases texts.len() - i,
{
    assert(texts.take(i + 1).drop_last() =~= texts.take(i));
    if i + 1 < texts.len() {
        lemma_texts_weight(texts, i + 1);
    } else {
        assert(texts.take(i + 1) =~= texts);
    }
}

proof fn lemma_properties_weight(properties: Seq<Property>, row: Row, i: int)
    requires
        0 <= i < properties.len(),
    ensures
        properties_weight(properties.take(i + 1), row) == properties_weight(properties.take(i), row)
            + property_weight(properties[i], row),
        properties_weight(properties.take(i + 1), row) <= properties_weight(properties, row),
    decreases properties.len() - i,
{
    assert(properties.take(i + 1).drop_last() =~= properties.take(i));
    if i + 1 < properties.len() {
        lemma_properties_weight(properties, row, i + 1);
    } else {
        assert(properties.take(i + 1) =~= properties);
    }
}

fn texts_bytes(texts: &Vec<String>) -> (bytes: usize)
    requires
        texts_weight(texts@) <= usize::MAX,
    ensures
        bytes == texts_weight(texts@),
{
    let mut bytes: usize = 0;
    let mut i: usize = 0;
    assert(texts@.take(0) =~= Seq::<String>::empty());
    while i < texts.len()
        invariant
            i <= texts@.len(),
            texts_weight(texts@) <= usize::MAX,
            bytes == texts_weight(texts@.take(i as int)),
        decreases texts@.len() - i,
    {
        proof {
            lemma_texts_weight(texts@, i as int);
        }
        bytes = bytes + 4 + bytes_in(texts[i].as_str());
        i += 1;
    }
    assert(texts@.take(i as int) =~= texts@);
    bytes
}

fn property_bytes(property: Property, row: &Row) -> (bytes: usize)
    requires
        property_weight(property, *row) <= usize::MAX,
    ensures
        bytes == property_weight(property, *row),
{
    match property {
        Property::Key => match &row.key {
            Some(key) => 5 + bytes_in(key.as_str()),
            None => 5,
        },
        Property::Level => 4,
        Property::Parents => 5 + 8 * row.parents.len(),
        Property::Target => 9,
        Property::MaskedCount => 9,
        Property::Content => 4 + texts_bytes(&row.content),
        Property::Centroid => 17,
        Property::Bounds => 33,
        Property::Shape => match &row.shape {
            Some(bytes) => 5 + bytes.len(),
            None => 5,
        },
    }
}

/// The bytes a row adds to a page.
pub fn row_bytes(properties: &Vec<Property>, filtered: bool, row: &Row) -> (bytes: usize)
    requires
        row_weight(properties@, filtered, *row) <= usize::MAX,
    ensures
        bytes == row_weight(properties@, filtered, *row),
{
    let mut bytes: usize = if filtered {
        16
    } else {
        8
    };
    let ghost own = bytes as nat;
    let mut i: usize = 0;
    assert(properties@.take(0) =~= Seq::<Property>::empty());
    while i < properties.len()
        invariant
            i <= properties@.len(),
            own + properties_weight(properties@, *row) <= usize::MAX,
            bytes == own + properties_weight(properties@.take(i as int), *row),
        decreases properties@.len() - i,
    {
        proof {
            lemma_properties_weight(properties@, *row, i as int);
        }
        bytes = bytes + property_bytes(properties[i], row);
        i += 1;
    }
    assert(properties@.take(i as int) =~= properties@);
    bytes
}

/// What a column of an artifacts page holds.
#[derive(Debug)]
pub enum ArtifactData {
    Ids(Vec<u64>),
    OptionalIds(Vec<Option<u64>>),
    Levels(Vec<u32>),
    IdLists(Vec<Vec<u64>>),
    Texts(Vec<Option<String>>),
    TextLists(Vec<Vec<String>>),
    /// Coordinates, each as its bit pattern.
    Coordinates(Vec<Option<u64>>),
    Binaries(Vec<Option<Vec<u8>>>),
}

/// One column of an artifacts page.
#[derive(Debug)]
pub struct ArtifactColumn {
    pub name: String,
    pub nullable: bool,
    pub data: ArtifactData,
}

/// A row's coordinate in the column at `part` of a property's.
pub open spec fn coordinate(property: Property, part: nat, row: Row) -> Option<u64> {
    match property {
        Property::Centroid => match row.centroid {
            Some(point) => Some(
                if part == 0 {
                    point.0
                } else {
                    point.1
                },
            ),
            None => None,
        },
        _ => match row.bbox {
            Some(corners) => Some(
                if part == 0 {
                    corners.0
                } else if part == 1 {
                    corners.1
                } else if part == 2 {
                    corners.2
                } else {
                    corners.3
                },
            ),
            None => None,
        },
    }
}

/// The name of the column at `part` of a property's.
pub open spec fn column_name(property: Property, part: nat) -> Seq<char> {
    match property {
        Property::Key => "key"@,
        Property::Level => "level"@,
        Property::Parents => "parents"@,
        Property::Target => "target"@,
        Property::MaskedCount => "masked_count"@,
        Property::Content => "content"@,
        Property::Centroid => if part == 0 {
            "centroid_x"@
        } else {
            "centroid_y"@
        },
        Property::Bounds => if part == 0 {
            "box_x_min"@
        } else if part == 1 {
            "box_y_min"@
        } else if part == 2 {
            "box_x_max"@
        } else {
            "box_y_max"@
        },
        Property::Shape => "shape"@,
    }
}

/// Whether a column is the one at `part` of a property's, over a page's rows.
pub open spec fn property_column(
    column: ArtifactColumn,
    property: Property,
    part: nat,
    rows: Seq<Row>,
) -> bool {
    &&& column.name@ == column_name(property, part)
    &&& match property {
        Property::Key => column.nullable && (column.data matches ArtifactData::Texts(texts)
            && texts@ == rows.map_values(|row: Row| row.key)),
        Property::Level => !column.nullable && (column.data matches ArtifactData::Levels(levels)
            && levels@ == rows.map_values(|row: Row| row.level)),
        Property::Parents => !column.nullable && (column.data matches ArtifactData::IdLists(lists)
            && lists@.len() == rows.len() && forall|i: int|
            0 <= i < rows.len() ==> (#[trigger] lists@[i])@ == rows[i].parents@),
        Property::Target => column.nullable && (column.data matches ArtifactData::OptionalIds(ids)
            && ids@ == rows.map_values(|row: Row| row.target)),
        Property::MaskedCount => !column.nullable && (column.data matches ArtifactData::Ids(counts)
            && counts@ == rows.map_values(|row: Row| row.masked_count)),
        Property::Content => !column.nullable && (column.data matches ArtifactData::TextLists(lists)
            && lists@.len() == rows.len() && forall|i: int|
            0 <= i < rows.len() ==> (#[trigger] lists@[i])@ == rows[i].content@),
        Property::Centroid | Property::Bounds => column.nullable && (
        column.data matches ArtifactData::Coordinates(values) && values@ == rows.map_values(
            |row: Row| coordinate(property, part, row),
        )),
        Property::Shape => column.nullable && (column.data matches ArtifactData::Binaries(shapes)
            && shapes@.len() == rows.len() && forall|i: int|
            0 <= i < rows.len() ==> bytes_of(#[trigger] shapes@[i]) == bytes_of(rows[i].shape)),
    }
}

/// Optional bytes as a sequence.
pub open spec fn bytes_of(bytes: Option<Vec<u8>>) -> Option<Seq<u8>> {
    match bytes {
        Some(bytes) => Some(bytes@),
        None => None,
    }
}

/// How many columns a list of properties makes.
pub open spec fn columns_of(properties: Seq<Property>) -> nat
    decreases properties.len(),
{
    if properties.len() == 0 {
        0
    } else {
        columns_of(properties.drop_last()) + properties.last().columns()
    }
}

/// Whether the columns from `at` on are a property's.
pub open spec fn columns_at(
    columns: Seq<ArtifactColumn>,
    at: nat,
    property: Property,
    rows: Seq<Row>,
) -> bool {
    &&& at + property.columns() <= columns.len()
    &&& forall|part: nat|
        part < property.columns() ==> property_column(
            #[trigger] columns[(at + part) as int],
            property,
            part,
            rows,
        )
}

/// Each row's key.
fn keys(rows: &Vec<Row>) -> (out: Vec<Option<String>>)
    ensures
        out@ == rows@.map_values(|row: Row| row.key),
{
    let mut out: Vec<Option<String>> = Vec::new();
    let mut i: usize = 0;
    while i < rows.len()
        invariant
            i <= rows@.len(),
            out@.len() == i,
            forall|k: int| 0 <= k < i ==> (#[trigger] out@[k]) == rows@[k].key,
        decreases rows@.len() - i,
    {
        out.push(
            match &rows[i].key {
                Some(key) => Some(key.clone()),
                None => None,
            },
        );
        i += 1;
    }
    assert(out@ =~= rows@.map_values(|row: Row| row.key));
    out
}

/// Each row's level.
fn levels(rows: &Vec<Row>) -> (out: Vec<u32>)
    ensures
        out@ == rows@.map_values(|row: Row| row.level),
{
    let mut out: Vec<u32> = Vec::new();
    let mut i: usize = 0;
    while i < rows.len()
        invariant
            i <= rows@.len(),
            out@.len() == i,
            forall|k: int| 0 <= k < i ==> (#[trigger] out@[k]) == rows@[k].level,
        decreases rows@.len() - i,
    {
        out.push(rows[i].level);
        i += 1;
    }
    assert(out@ =~= rows@.map_values(|row: Row| row.level));
    out
}

/// The same ids.
fn copy_ids(list: &Vec<u64>) -> (out: Vec<u64>)
    ensures
        out@ == list@,
{
    let mut out: Vec<u64> = Vec::with_capacity(list.len());
    let mut i: usize = 0;
    while i < list.len()
        invariant
            i <= list@.len(),
            out@ == list@.take(i as int),
        decreases list@.len() - i,
    {
        out.push(list[i]);
        i += 1;
        assert(list@.take(i as int) =~= list@.take(i - 1).push(list@[i - 1]));
    }
    assert(list@.take(i as int) =~= list@);
    out
}

/// Each row's parents.
fn parents(rows: &Vec<Row>) -> (out: Vec<Vec<u64>>)
    ensures
        out@.len() == rows@.len(),
        forall|i: int| 0 <= i < rows@.len() ==> (#[trigger] out@[i])@ == rows@[i].parents@,
{
    let mut out: Vec<Vec<u64>> = Vec::new();
    let mut i: usize = 0;
    while i < rows.len()
        invariant
            i <= rows@.len(),
            out@.len() == i,
            forall|k: int| 0 <= k < i ==> (#[trigger] out@[k])@ == rows@[k].parents@,
        decreases rows@.len() - i,
    {
        out.push(copy_ids(&rows[i].parents));
        i += 1;
    }
    out
}

/// Each row's target.
fn targets(rows: &Vec<Row>) -> (out: Vec<Option<u64>>)
    ensures
        out@ == rows@.map_values(|row: Row| row.target),
{
    let mut out: Vec<Option<u64>> = Vec::new();
    let mut i: usize = 0;
    while i < rows.len()
        invariant
            i <= rows@.len(),
            out@.len() == i,
            forall|k: int| 0 <= k < i ==> (#[trigger] out@[k]) == rows@[k].target,
        decreases rows@.len() - i,
    {
        out.push(rows[i].target);
        i += 1;
    }
    assert(out@ =~= rows@.map_values(|row: Row| row.target));
    out
}

/// Each row's masked count.
fn masked_counts(rows: &Vec<Row>) -> (out: Vec<u64>)
    ensures
        out@ == rows@.map_values(|row: Row| row.masked_count),
{
    let mut out: Vec<u64> = Vec::new();
    let mut i: usize = 0;
    while i < rows.len()
        invariant
            i <= rows@.len(),
            out@.len() == i,
            forall|k: int| 0 <= k < i ==> (#[trigger] out@[k]) == rows@[k].masked_count,
        decreases rows@.len() - i,
    {
        out.push(rows[i].masked_count);
        i += 1;
    }
    assert(out@ =~= rows@.map_values(|row: Row| row.masked_count));
    out
}

/// Each row's content.
fn contents(rows: &Vec<Row>) -> (out: Vec<Vec<String>>)
    ensures
        out@.len() == rows@.len(),
        forall|i: int| 0 <= i < rows@.len() ==> (#[trigger] out@[i])@ == rows@[i].content@,
{
    let mut out: Vec<Vec<String>> = Vec::new();
    let mut i: usize = 0;
    while i < rows.len()
        invariant
            i <= rows@.len(),
            out@.len() == i,
            forall|k: int| 0 <= k < i ==> (#[trigger] out@[k])@ == rows@[k].content@,
        decreases rows@.len() - i,
    {
        out.push(copy_strings(&rows[i].content));
        i += 1;
    }
    out
}

/// Each row's coordinate in the column at `part` of a property's.
fn coordinates(rows: &Vec<Row>, property: Property, part: u32) -> (out: Vec<Option<u64>>)
    ensures
        out@ == rows@.map_values(|row: Row| coordinate(property, part as nat, row)),
{
    let mut out: Vec<Option<u64>> = Vec::new();
    let mut i: usize = 0;
    while i < rows.len()
        invariant
            i <= rows@.len(),
            out@.len() == i,
            forall|k: int|
                0 <= k < i ==> (#[trigger] out@[k]) == coordinate(property, part as nat, rows@[k]),
        decreases rows@.len() - i,
    {
        let value: Option<u64> = match property {
            Property::Centroid => match rows[i].centroid {
                Some((x, y)) => Some(
                    if part == 0 {
                        x
                    } else {
                        y
                    },
                ),
                None => None,
            },
            _ => match rows[i].bbox {
                Some((x_min, y_min, x_max, y_max)) => Some(
                    if part == 0 {
                        x_min
                    } else if part == 1 {
                        y_min
                    } else if part == 2 {
                        x_max
                    } else {
                        y_max
                    },
                ),
                None => None,
            },
        };
        out.push(value);
        i += 1;
    }
    assert(out@ =~= rows@.map_values(|row: Row| coordinate(property, part as nat, row)));
    out
}

/// Each row's shape.
fn shapes(rows: &Vec<Row>) -> (out: Vec<Option<Vec<u8>>>)
    ensures
        out@.len() == rows@.len(),
        forall|i: int|
            0 <= i < rows@.len() ==> bytes_of(#[trigger] out@[i]) == bytes_of(rows@[i].shape),
{
    let mut out: Vec<Option<Vec<u8>>> = Vec::new();
    let mut i: usize = 0;
    while i < rows.len()
        invariant
            i <= rows@.len(),
            out@.len() == i,
            forall|k: int|
                0 <= k < i ==> bytes_of(#[trigger] out@[k]) == bytes_of(rows@[k].shape),
        decreases rows@.len() - i,
    {
        out.push(
            match &rows[i].shape {
                Some(bytes) => Some(copy_bytes(bytes)),
                None => None,
            },
        );
        i += 1;
    }
    out
}

/// A coordinate column.
fn coordinate_column(rows: &Vec<Row>, property: Property, part: u32, name: &str) -> (column:
    ArtifactColumn)
    requires
        property == Property::Centroid || property == Property::Bounds,
        name@ == column_name(property, part as nat),
    ensures
        property_column(column, property, part as nat, rows@),
{
    ArtifactColumn {
        name: String::from_str(name),
        nullable: true,
        data: ArtifactData::Coordinates(coordinates(rows, property, part)),
    }
}

/// The one column of a property that makes one.
fn single_column(rows: &Vec<Row>, property: Property) -> (column: ArtifactColumn)
    requires
        property.columns() == 1,
    ensures
        property_column(column, property, 0, rows@),
{
    let (name, nullable, data): (&str, bool, ArtifactData) = match property {
        Property::Key => ("key", true, ArtifactData::Texts(keys(rows))),
        Property::Level => ("level", false, ArtifactData::Levels(levels(rows))),
        Property::Parents => ("parents", false, ArtifactData::IdLists(parents(rows))),
        Property::Target => ("target", true, ArtifactData::OptionalIds(targets(rows))),
        Property::MaskedCount => ("masked_count", false, ArtifactData::Ids(masked_counts(rows))),
        Property::Content => ("content", false, ArtifactData::TextLists(contents(rows))),
        _ => ("shape", true, ArtifactData::Binaries(shapes(rows))),
    };
    ArtifactColumn { name: String::from_str(name), nullable, data }
}

/// A property's columns onto the end of a page's.
fn append_columns(columns: &mut Vec<ArtifactColumn>, rows: &Vec<Row>, property: Property)
    ensures
        final(columns)@.len() == old(columns)@.len() + property.columns(),
        final(columns)@.take(old(columns)@.len() as int) == old(columns)@,
        columns_at(final(columns)@, old(columns)@.len(), property, rows@),
{
    let ghost before = columns@;
    match property {
        Property::Centroid => {
            columns.push(coordinate_column(rows, property, 0, "centroid_x"));
            columns.push(coordinate_column(rows, property, 1, "centroid_y"));
        },
        Property::Bounds => {
            columns.push(coordinate_column(rows, property, 0, "box_x_min"));
            columns.push(coordinate_column(rows, property, 1, "box_y_min"));
            columns.push(coordinate_column(rows, property, 2, "box_x_max"));
            columns.push(coordinate_column(rows, property, 3, "box_y_max"));
        },
        _ => {
            columns.push(single_column(rows, property));
        },
    }
    proof {
        assert(columns@.take(before.len() as int) =~= before);
        assert forall|part: nat| part < property.columns() implies property_column(
            #[trigger] columns@[(before.len() + part) as int],
            property,
            part,
            rows@,
        ) by {
            assert(part == 0 || part == 1 || part == 2 || part == 3);
        }
    }
}

proof fn lemma_columns_of(properties: Seq<Property>, i: int)
    requires
        0 <= i < properties.len(),
    ensures
        columns_of(properties.take(i + 1)) == columns_of(properties.take(i))
            + properties[i].columns(),
{
    assert(properties.take(i + 1).drop_last() =~= properties.take(i));
}

/// Whether the columns are those an artifact page's batch carries, in order: `tessera_id`, the
/// properties in the order named, then `matched_count` under a filter.
pub open spec fn lays_out(
    columns: Seq<ArtifactColumn>,
    properties: Seq<Property>,
    filtered: bool,
    rows: Seq<Row>,
) -> bool {
    &&& columns.len() == 1 + columns_of(properties) + if filtered {
        1nat
    } else {
        0nat
    }
    &&& columns[0].name@ == "tessera_id"@
    &&& !columns[0].nullable
    &&& columns[0].data matches ArtifactData::Ids(ids) && ids@ == rows.map_values(
        |row: Row| row.tessera_id,
    )
    &&& forall|k: int|
        0 <= k < properties.len() ==> columns_at(
            columns,
            1 + columns_of(properties.take(k)),
            #[trigger] properties[k],
            rows,
        )
    &&& filtered ==> {
        let last = columns.last();
        &&& last.name@ == "matched_count"@
        &&& !last.nullable
        &&& last.data matches ArtifactData::Ids(counts)
        &&& counts@ == rows.map_values(|row: Row| matched_of(row))
    }
}

/// Whether a column is one of those the properties make.
pub open spec fn of_a_property(
    column: ArtifactColumn,
    properties: Seq<Property>,
    rows: Seq<Row>,
) -> bool {
    exists|k: int, part: nat|
        0 <= k < properties.len() && part < properties[k].columns() && #[trigger] property_column(
            column,
            properties[k],
            part,
            rows,
        )
}

/// Whether columns are those a page's rows make, and every one of them is one of these.
pub open spec fn makes_columns(
    columns: Seq<ArtifactColumn>,
    properties: Seq<Property>,
    filtered: bool,
    rows: Seq<Row>,
) -> bool {
    &&& lays_out(columns, properties, filtered, rows)
    &&& forall|j: int|
        1 <= j <= columns_of(properties) ==> of_a_property(
            #[trigger] columns[j],
            properties,
            rows,
        )
}

/// A page's rows as columns: `tessera_id`, the properties in the order named, then `matched_count`
/// under a filter.
pub fn artifact_columns(properties: &Vec<Property>, filtered: bool, rows: &Vec<Row>) -> (columns:
    Vec<ArtifactColumn>)
    ensures
        makes_columns(columns@, properties@, filtered, rows@),
{
    let mut ids: Vec<u64> = Vec::new();
    let mut matched: Vec<u64> = Vec::new();
    let mut i: usize = 0;
    while i < rows.len()
        invariant
            i <= rows@.len(),
            ids@.len() == i,
            matched@.len() == i,
            forall|k: int| 0 <= k < i ==> (#[trigger] ids@[k]) == rows@[k].tessera_id,
            forall|k: int| 0 <= k < i ==> (#[trigger] matched@[k]) == matched_of(rows@[k]),
        decreases rows@.len() - i,
    {
        ids.push(rows[i].tessera_id);
        matched.push(
            match rows[i].matched {
                Some(count) => count,
                None => 0,
            },
        );
        i += 1;
    }
    assert(ids@ =~= rows@.map_values(|row: Row| row.tessera_id));
    assert(matched@ =~= rows@.map_values(|row: Row| matched_of(row)));
    let mut columns: Vec<ArtifactColumn> = Vec::new();
    columns.push(
        ArtifactColumn {
            name: String::from_str("tessera_id"),
            nullable: false,
            data: ArtifactData::Ids(ids),
        },
    );
    let ghost first = columns@[0];
    let mut k: usize = 0;
    assert(properties@.take(0) =~= Seq::<Property>::empty());
    while k < properties.len()
        invariant
            k <= properties@.len(),
            columns@.len() == 1 + columns_of(properties@.take(k as int)),
            columns@[0] == first,
            forall|j: int|
                0 <= j < k ==> columns_at(
                    columns@,
                    1 + columns_of(properties@.take(j)),
                    #[trigger] properties@[j],
                    rows@,
                ),
            forall|j: int|
                1 <= j < columns@.len() ==> of_a_property(
                    #[trigger] columns@[j],
                    properties@,
                    rows@,
                ),
        decreases properties@.len() - k,
    {
        let ghost before = columns@;
        append_columns(&mut columns, rows, properties[k]);
        proof {
            lemma_columns_of(properties@, k as int);
            assert(columns@.take(before.len() as int)[0] == columns@[0]);
            assert forall|j: int| 1 <= j < columns@.len() implies of_a_property(
                #[trigger] columns@[j],
                properties@,
                rows@,
            ) by {
                if j < before.len() {
                    assert(columns@.take(before.len() as int)[j] == columns@[j]);
                } else {
                    let part = (j - before.len()) as nat;
                    assert(columns@[(before.len() + part) as int] == columns@[j]);
                    assert(property_column(columns@[j], properties@[k as int], part, rows@));
                }
            }
            assert forall|j: int| 0 <= j < k + 1 implies columns_at(
                columns@,
                1 + columns_of(properties@.take(j)),
                #[trigger] properties@[j],
                rows@,
            ) by {
                if j < k {
                    lemma_columns_kept(before, columns@, properties@, j, rows@);
                }
            }
        }
        k += 1;
    }
    assert(properties@.take(k as int) =~= properties@);
    if filtered {
        let ghost before = columns@;
        columns.push(
            ArtifactColumn {
                name: String::from_str("matched_count"),
                nullable: false,
                data: ArtifactData::Ids(matched),
            },
        );
        proof {
            assert(columns@.take(before.len() as int) =~= before);
            assert forall|j: int| 0 <= j < properties@.len() implies columns_at(
                columns@,
                1 + columns_of(properties@.take(j)),
                #[trigger] properties@[j],
                rows@,
            ) by {
                lemma_columns_kept(before, columns@, properties@, j, rows@);
            }
        }
    }
    columns
}

/// The matches a row counts; none without a filter.
pub open spec fn matched_of(row: Row) -> u64 {
    match row.matched {
        Some(count) => count,
        None => 0,
    }
}

/// A property's columns stay where they are when more are appended.
proof fn lemma_columns_kept(
    before: Seq<ArtifactColumn>,
    after: Seq<ArtifactColumn>,
    properties: Seq<Property>,
    j: int,
    rows: Seq<Row>,
)
    requires
        before.len() <= after.len(),
        after.take(before.len() as int) == before,
        0 <= j < properties.len(),
        columns_at(before, 1 + columns_of(properties.take(j)), properties[j], rows),
    ensures
        columns_at(after, 1 + columns_of(properties.take(j)), properties[j], rows),
{
    let at = 1 + columns_of(properties.take(j));
    assert forall|part: nat| part < properties[j].columns() implies property_column(
        #[trigger] after[(at + part) as int],
        properties[j],
        part,
        rows,
    ) by {
        assert(before[(at + part) as int] == after.take(before.len() as int)[(at + part) as int]);
    }
}

/// The columns' names are apart.
proof fn lemma_names_apart()
    ensures
        "tessera_id"@ != "key"@,
        "tessera_id"@ != "level"@,
        "tessera_id"@ != "parents"@,
        "tessera_id"@ != "target"@,
        "tessera_id"@ != "masked_count"@,
        "tessera_id"@ != "content"@,
        "tessera_id"@ != "centroid_x"@,
        "tessera_id"@ != "centroid_y"@,
        "tessera_id"@ != "box_x_min"@,
        "tessera_id"@ != "box_y_min"@,
        "tessera_id"@ != "box_x_max"@,
        "tessera_id"@ != "box_y_max"@,
        "tessera_id"@ != "shape"@,
        "tessera_id"@ != "matched_count"@,
        "key"@ != "level"@,
        "key"@ != "parents"@,
        "key"@ != "target"@,
        "key"@ != "masked_count"@,
        "key"@ != "content"@,
        "key"@ != "centroid_x"@,
        "key"@ != "centroid_y"@,
        "key"@ != "box_x_min"@,
        "key"@ != "box_y_min"@,
        "key"@ != "box_x_max"@,
        "key"@ != "box_y_max"@,
        "key"@ != "shape"@,
        "key"@ != "matched_count"@,
        "level"@ != "parents"@,
        "level"@ != "target"@,
        "level"@ != "masked_count"@,
        "level"@ != "content"@,
        "level"@ != "centroid_x"@,
        "level"@ != "centroid_y"@,
        "level"@ != "box_x_min"@,
        "level"@ != "box_y_min"@,
        "level"@ != "box_x_max"@,
        "level"@ != "box_y_max"@,
        "level"@ != "shape"@,
        "level"@ != "matched_count"@,
        "parents"@ != "target"@,
        "parents"@ != "masked_count"@,
        "parents"@ != "content"@,
        "parents"@ != "centroid_x"@,
        "parents"@ != "centroid_y"@,
        "parents"@ != "box_x_min"@,
        "parents"@ != "box_y_min"@,
        "parents"@ != "box_x_max"@,
        "parents"@ != "box_y_max"@,
        "parents"@ != "shape"@,
        "parents"@ != "matched_count"@,
        "target"@ != "masked_count"@,
        "target"@ != "content"@,
        "target"@ != "centroid_x"@,
        "target"@ != "centroid_y"@,
        "target"@ != "box_x_min"@,
        "target"@ != "box_y_min"@,
        "target"@ != "box_x_max"@,
        "target"@ != "box_y_max"@,
        "target"@ != "shape"@,
        "target"@ != "matched_count"@,
        "masked_count"@ != "content"@,
        "masked_count"@ != "centroid_x"@,
        "masked_count"@ != "centroid_y"@,
        "masked_count"@ != "box_x_min"@,
        "masked_count"@ != "box_y_min"@,
        "masked_count"@ != "box_x_max"@,
        "masked_count"@ != "box_y_max"@,
        "masked_count"@ != "shape"@,
        "masked_count"@ != "matched_count"@,
        "content"@ != "centroid_x"@,
        "content"@ != "centroid_y"@,
        "content"@ != "box_x_min"@,
        "content"@ != "box_y_min"@,
        "content"@ != "box_x_max"@,
        "content"@ != "box_y_max"@,
        "content"@ != "shape"@,
        "content"@ != "matched_count"@,
        "centroid_x"@ != "centroid_y"@,
        "centroid_x"@ != "box_x_min"@,
        "centroid_x"@ != "box_y_min"@,
        "centroid_x"@ != "box_x_max"@,
        "centroid_x"@ != "box_y_max"@,
        "centroid_x"@ != "shape"@,
        "centroid_x"@ != "matched_count"@,
        "centroid_y"@ != "box_x_min"@,
        "centroid_y"@ != "box_y_min"@,
        "centroid_y"@ != "box_x_max"@,
        "centroid_y"@ != "box_y_max"@,
        "centroid_y"@ != "shape"@,
        "centroid_y"@ != "matched_count"@,
        "box_x_min"@ != "box_y_min"@,
        "box_x_min"@ != "box_x_max"@,
        "box_x_min"@ != "box_y_max"@,
        "box_x_min"@ != "shape"@,
        "box_x_min"@ != "matched_count"@,
        "box_y_min"@ != "box_x_max"@,
        "box_y_min"@ != "box_y_max"@,
        "box_y_min"@ != "shape"@,
        "box_y_min"@ != "matched_count"@,
        "box_x_max"@ != "box_y_max"@,
        "box_x_max"@ != "shape"@,
        "box_x_max"@ != "matched_count"@,
        "box_y_max"@ != "shape"@,
        "box_y_max"@ != "matched_count"@,
        "shape"@ != "matched_count"@,
{
    reveal_strlit("tessera_id");
    reveal_strlit("key");
    reveal_strlit("level");
    reveal_strlit("parents");
    reveal_strlit("target");
    reveal_strlit("masked_count");
    reveal_strlit("content");
    reveal_strlit("centroid_x");
    reveal_strlit("centroid_y");
    reveal_strlit("box_x_min");
    reveal_strlit("box_y_min");
    reveal_strlit("box_x_max");
    reveal_strlit("box_y_max");
    reveal_strlit("shape");
    reveal_strlit("matched_count");
    assert("box_x_max"@.len() == 9);
    assert("box_x_min"@.len() == 9);
    assert("box_y_max"@.len() == 9);
    assert("box_y_min"@.len() == 9);
    assert("centroid_x"@.len() == 10);
    assert("centroid_y"@.len() == 10);
    assert("content"@.len() == 7);
    assert("key"@.len() == 3);
    assert("level"@.len() == 5);
    assert("masked_count"@.len() == 12);
    assert("matched_count"@.len() == 13);
    assert("parents"@.len() == 7);
    assert("shape"@.len() == 5);
    assert("target"@.len() == 6);
    assert("tessera_id"@.len() == 10);
    assert("tessera_id"@[0] != "centroid_x"@[0]);
    assert("tessera_id"@[0] != "centroid_y"@[0]);
    assert("level"@[0] != "shape"@[0]);
    assert("parents"@[0] != "content"@[0]);
    assert("centroid_x"@[9] != "centroid_y"@[9]);
    assert("box_x_min"@[4] != "box_y_min"@[4]);
    assert("box_x_min"@[7] != "box_x_max"@[7]);
    assert("box_x_min"@[4] != "box_y_max"@[4]);
    assert("box_y_min"@[4] != "box_x_max"@[4]);
    assert("box_y_min"@[7] != "box_y_max"@[7]);
    assert("box_x_max"@[4] != "box_y_max"@[4]);
}

/// A column of an artifacts page holds, at each row, what its name says of that row: the identifier,
/// the key, the level, the parents, the target, the counts, the content, the centroid's first and
/// second coordinate, the box's least x, least y, greatest x and greatest y, and the shape.
pub proof fn law_each_column_holds_what_its_name_says(
    columns: Seq<ArtifactColumn>,
    properties: Seq<Property>,
    filtered: bool,
    rows: Seq<Row>,
    j: int,
    i: int,
)
    requires
        makes_columns(columns, properties, filtered, rows),
        0 <= j < columns.len(),
        0 <= i < rows.len(),
    ensures
        ({
            let name = columns[j].name@;
            let data = columns[j].data;
            let row = rows[i];
            &&& name == "tessera_id"@ ==> data is Ids && data->Ids_0@.len() == rows.len()
                && data->Ids_0@[i] == row.tessera_id
            &&& name == "key"@ ==> data is Texts && data->Texts_0@.len() == rows.len()
                && data->Texts_0@[i] == row.key
            &&& name == "level"@ ==> data is Levels && data->Levels_0@.len() == rows.len()
                && data->Levels_0@[i] == row.level
            &&& name == "parents"@ ==> data is IdLists && data->IdLists_0@.len() == rows.len()
                && data->IdLists_0@[i]@ == row.parents@
            &&& name == "target"@ ==> data is OptionalIds && data->OptionalIds_0@.len()
                == rows.len() && data->OptionalIds_0@[i] == row.target
            &&& name == "masked_count"@ ==> data is Ids && data->Ids_0@.len() == rows.len()
                && data->Ids_0@[i] == row.masked_count
            &&& name == "content"@ ==> data is TextLists && data->TextLists_0@.len() == rows.len()
                && data->TextLists_0@[i]@ == row.content@
            &&& name == "shape"@ ==> data is Binaries && data->Binaries_0@.len() == rows.len() && (
            data->Binaries_0@[i] is Some <==> row.shape is Some) && (row.shape is Some
                ==> data->Binaries_0@[i]->0@ == row.shape->0@)
            &&& name == "matched_count"@ ==> data is Ids && data->Ids_0@.len() == rows.len() && (
            row.matched is Some ==> data->Ids_0@[i] == row.matched->0) && (row.matched is None
                ==> data->Ids_0@[i] == 0)
        }),
{
    lemma_names_apart();
    if 1 <= j <= columns_of(properties) {
        let (k, part) = choose|k: int, part: nat|
            0 <= k < properties.len() && part < properties[k].columns() && #[trigger] property_column(
                columns[j],
                properties[k],
                part,
                rows,
            );
        assert(property_column(columns[j], properties[k], part, rows));
    }
}

/// The columns of a row's centroid and box hold their coordinates by name: where the row has a
/// centroid `(x, y)`, `centroid_x` holds `x` and `centroid_y` holds `y`, and where it has a box
/// `(x_min, y_min, x_max, y_max)`, the four columns hold the four of them, each its own. Where the
/// row has none they hold nothing.
pub proof fn law_each_coordinate_is_in_the_column_of_its_name(
    columns: Seq<ArtifactColumn>,
    properties: Seq<Property>,
    filtered: bool,
    rows: Seq<Row>,
    j: int,
    i: int,
)
    requires
        makes_columns(columns, properties, filtered, rows),
        0 <= j < columns.len(),
        0 <= i < rows.len(),
    ensures
        ({
            let name = columns[j].name@;
            let data = columns[j].data;
            let row = rows[i];
            let (x, y) = row.centroid->0;
            let (x_min, y_min, x_max, y_max) = row.bbox->0;
            &&& name == "centroid_x"@ || name == "centroid_y"@ || name == "box_x_min"@ || name
                == "box_y_min"@ || name == "box_x_max"@ || name == "box_y_max"@
                ==> data is Coordinates && data->Coordinates_0@.len() == rows.len()
            &&& name == "centroid_x"@ || name == "centroid_y"@ ==> (data->Coordinates_0@[i] is Some
                <==> row.centroid is Some)
            &&& name == "centroid_x"@ && row.centroid is Some ==> data->Coordinates_0@[i]->0
                == x
            &&& name == "centroid_y"@ && row.centroid is Some ==> data->Coordinates_0@[i]->0
                == y
            &&& name == "box_x_min"@ || name == "box_y_min"@ || name == "box_x_max"@ || name
                == "box_y_max"@ ==> (data->Coordinates_0@[i] is Some <==> row.bbox is Some)
            &&& name == "box_x_min"@ && row.bbox is Some ==> data->Coordinates_0@[i]->0
                == x_min
            &&& name == "box_y_min"@ && row.bbox is Some ==> data->Coordinates_0@[i]->0
                == y_min
            &&& name == "box_x_max"@ && row.bbox is Some ==> data->Coordinates_0@[i]->0
                == x_max
            &&& name == "box_y_max"@ && row.bbox is Some ==> data->Coordinates_0@[i]->0
                == y_max
        }),
{
    lemma_names_apart();
    if 1 <= j <= columns_of(properties) {
        let (k, part) = choose|k: int, part: nat|
            0 <= k < properties.len() && part < properties[k].columns() && #[trigger] property_column(
                columns[j],
                properties[k],
                part,
                rows,
            );
        assert(property_column(columns[j], properties[k], part, rows));
    }
}

proof fn lemma_column_is_named(
    columns: Seq<ArtifactColumn>,
    at: nat,
    property: Property,
    part: nat,
    rows: Seq<Row>,
)
    requires
        columns_at(columns, at, property, rows),
        part < property.columns(),
    ensures
        columns[(at + part) as int].name@ == column_name(property, part),
        columns[(at + part) as int].nullable == !(property is Level || property is Parents
            || property is MaskedCount || property is Content),
        at + part < columns.len(),
{
    assert(property_column(columns[(at + part) as int], property, part, rows));
}

/// The names of a page's columns, in order: the identifier first, then for each property named, in
/// the order named, its own, a centroid two and a box four, and the matches last under a filter. The
/// columns from `at` on are those of the property at `k`, and those of the next follow them.
pub proof fn law_the_columns_stand_in_the_order_named(
    columns: Seq<ArtifactColumn>,
    properties: Seq<Property>,
    filtered: bool,
    rows: Seq<Row>,
    k: int,
) -> (at: (int, int))
    requires
        makes_columns(columns, properties, filtered, rows),
        0 <= k < properties.len(),
    ensures
        ({
            let (from, to) = at;
            let property = properties[k];
            &&& columns[0].name@ == "tessera_id"@
            &&& 1 <= from <= to <= columns.len()
            &&& k == 0 ==> from == 1
            &&& k + 1 == properties.len() ==> to == columns.len() - if filtered {
                1int
            } else {
                0
            }
            &&& filtered ==> columns.last().name@ == "matched_count"@
            &&& property is Key ==> to == from + 1 && columns[from].name@ == "key"@
                && columns[from].nullable
            &&& property is Level ==> to == from + 1 && columns[from].name@ == "level"@
                && !columns[from].nullable
            &&& property is Parents ==> to == from + 1 && columns[from].name@ == "parents"@
                && !columns[from].nullable
            &&& property is Target ==> to == from + 1 && columns[from].name@ == "target"@
                && columns[from].nullable
            &&& property is MaskedCount ==> to == from + 1 && columns[from].name@
                == "masked_count"@ && !columns[from].nullable
            &&& property is Content ==> to == from + 1 && columns[from].name@ == "content"@
                && !columns[from].nullable
            &&& property is Centroid ==> to == from + 2 && columns[from].name@ == "centroid_x"@
                && columns[from + 1].name@ == "centroid_y"@ && columns[from].nullable
                && columns[from + 1].nullable
            &&& property is Bounds ==> to == from + 4 && columns[from].name@ == "box_x_min"@
                && columns[from + 1].name@ == "box_y_min"@ && columns[from + 2].name@
                == "box_x_max"@ && columns[from + 3].name@ == "box_y_max"@
                && columns[from].nullable && columns[from + 1].nullable && columns[from
                + 2].nullable && columns[from + 3].nullable
            &&& property is Shape ==> to == from + 1 && columns[from].name@ == "shape"@
                && columns[from].nullable
        }),
{
    let from = lemma_columns_begin(columns, properties, filtered, rows, k);
    lemma_columns_are_named(columns, from, properties[k], rows);
    (from as int, (from + properties[k].columns()) as int)
}

/// Where a property's columns begin.
proof fn lemma_columns_begin(
    columns: Seq<ArtifactColumn>,
    properties: Seq<Property>,
    filtered: bool,
    rows: Seq<Row>,
    k: int,
) -> (from: nat)
    requires
        makes_columns(columns, properties, filtered, rows),
        0 <= k < properties.len(),
    ensures
        columns_at(columns, from, properties[k], rows),
        columns[0].name@ == "tessera_id"@,
        1 <= from,
        from + properties[k].columns() <= columns.len(),
        k == 0 ==> from == 1,
        k + 1 == properties.len() ==> from + properties[k].columns() == columns.len() - if filtered {
            1int
        } else {
            0
        },
        filtered ==> columns.last().name@ == "matched_count"@,
{
    lemma_columns_of(properties, k);
    if k == 0 {
        assert(properties.take(0) =~= Seq::<Property>::empty());
    }
    if k + 1 == properties.len() {
        assert(properties.take(k + 1) =~= properties);
    }
    1 + columns_of(properties.take(k))
}

/// A property's columns have its names.
proof fn lemma_columns_are_named(
    columns: Seq<ArtifactColumn>,
    from: nat,
    property: Property,
    rows: Seq<Row>,
)
    requires
        columns_at(columns, from, property, rows),
    ensures
        forall|part: nat|
            part < property.columns() ==> (#[trigger] columns[(from + part) as int]).name@
                == column_name(property, part) && columns[(from + part) as int].nullable == !(
            property is Level || property is Parents || property is MaskedCount
                || property is Content),
        property.columns() > 0 ==> columns[from as int].name@ == column_name(property, 0)
            && columns[from as int].nullable == !(property is Level || property is Parents
            || property is MaskedCount || property is Content),
        property.columns() > 1 ==> columns[(from + 1) as int].name@ == column_name(property, 1)
            && columns[(from + 1) as int].nullable == columns[from as int].nullable,
        property.columns() > 2 ==> columns[(from + 2) as int].name@ == column_name(property, 2)
            && columns[(from + 2) as int].nullable == columns[from as int].nullable,
        property.columns() > 3 ==> columns[(from + 3) as int].name@ == column_name(property, 3)
            && columns[(from + 3) as int].nullable == columns[from as int].nullable,
{
    assert forall|part: nat| part < property.columns() implies (
    #[trigger] columns[(from + part) as int]).name@ == column_name(property, part) && columns[(from
        + part) as int].nullable == !(property is Level || property is Parents
        || property is MaskedCount || property is Content) by {
        lemma_column_is_named(columns, from, property, part, rows);
    }
    if property.columns() > 0 {
        lemma_column_is_named(columns, from, property, 0, rows);
    }
    if property.columns() > 1 {
        lemma_column_is_named(columns, from, property, 1, rows);
    }
    if property.columns() > 2 {
        lemma_column_is_named(columns, from, property, 2, rows);
    }
    if property.columns() > 3 {
        lemma_column_is_named(columns, from, property, 3, rows);
    }
}

/// A property is named by the name its columns have, or begin with.
pub proof fn law_a_property_is_named_as_its_columns_are(name: Seq<char>)
    ensures
        ({
            let property = Property::named(name);
            &&& property is Some && !(property->0 is Centroid || property->0 is Bounds)
                ==> column_name(property->0, 0) == name
            &&& property == Some(Property::Centroid) ==> column_name(property->0, 0) == name
                + "_x"@ && column_name(property->0, 1) == name + "_y"@
            &&& property == Some(Property::Bounds) ==> column_name(property->0, 0) == name
                + "_x_min"@ && column_name(property->0, 1) == name + "_y_min"@ && column_name(
                property->0,
                2,
            ) == name + "_x_max"@ && column_name(property->0, 3) == name + "_y_max"@
            &&& name == "key"@ || name == "level"@ || name == "parents"@ || name == "target"@
                || name == "masked_count"@ || name == "content"@ || name == "centroid"@ || name
                == "box"@ || name == "shape"@ <==> property is Some
        }),
{
    reveal_strlit("centroid");
    reveal_strlit("centroid_x");
    reveal_strlit("centroid_y");
    reveal_strlit("_x");
    reveal_strlit("_y");
    reveal_strlit("box");
    reveal_strlit("box_x_min");
    reveal_strlit("box_y_min");
    reveal_strlit("box_x_max");
    reveal_strlit("box_y_max");
    reveal_strlit("_x_min");
    reveal_strlit("_y_min");
    reveal_strlit("_x_max");
    reveal_strlit("_y_max");
    assert("centroid"@ + "_x"@ =~= "centroid_x"@);
    assert("centroid"@ + "_y"@ =~= "centroid_y"@);
    assert("box"@ + "_x_min"@ =~= "box_x_min"@);
    assert("box"@ + "_y_min"@ =~= "box_y_min"@);
    assert("box"@ + "_x_max"@ =~= "box_x_max"@);
    assert("box"@ + "_y_max"@ =~= "box_y_max"@);
}

/// A row has of each property named what is known of its artifact, and nothing of the others. Its
/// identifier, level and counts it has whatever is named.
pub proof fn law_a_row_is_what_is_known_of_its_artifact(
    properties: Seq<Property>,
    facts: ArtifactFacts,
    row: Row,
)
    requires
        row_of(properties, facts, row),
    ensures
        facts.tessera_id is Some ==> row.tessera_id == facts.tessera_id->0,
        row.level == facts.level,
        row.masked_count == facts.masked_count,
        row.matched == facts.matched,
        properties.contains(Property::Key) ==> row.key == facts.key,
        !properties.contains(Property::Key) ==> row.key is None,
        properties.contains(Property::Target) ==> row.target == facts.target,
        !properties.contains(Property::Target) ==> row.target is None,
        properties.contains(Property::Content) ==> row.content@ == facts.content@,
        !properties.contains(Property::Content) ==> row.content@.len() == 0,
        properties.contains(Property::Centroid) ==> row.centroid == facts.centroid,
        properties.contains(Property::Bounds) ==> row.bbox == facts.bbox,
        properties.contains(Property::Shape) ==> row.shape == facts.shape,
        !properties.contains(Property::Shape) ==> row.shape is None,
        properties.contains(Property::Parents) ==> forall|id: u64| #[trigger]
            row.parents@.contains(id) <==> facts.parents@.contains(Some(id)),
        !properties.contains(Property::Parents) ==> row.parents@.len() == 0,
        forall|i: int, j: int|
            0 <= i < j < row.parents@.len() ==> row.parents@[i] < row.parents@[j],
{
}

/// A row's bytes are its identifier's eight, eight more under a filter, and what its properties add:
/// one more property adds its own columns' bytes, whatever the others are.
pub proof fn law_a_rows_bytes_are_its_properties(
    properties: Seq<Property>,
    property: Property,
    filtered: bool,
    row: Row,
)
    ensures
        row_weight(Seq::empty(), filtered, row) == if filtered {
            16nat
        } else {
            8nat
        },
        row_weight(properties.push(property), filtered, row) == row_weight(properties, filtered, row)
            + match property {
            Property::Key => 5 + if row.key is Some {
                encode_utf8(row.key->0@).len()
            } else {
                0
            },
            Property::Level => 4,
            Property::Parents => 5 + 8 * row.parents@.len(),
            Property::Target => 9,
            Property::MaskedCount => 9,
            Property::Content => 4 + texts_weight(row.content@),
            Property::Centroid => 17,
            Property::Bounds => 33,
            Property::Shape => 5 + if row.shape is Some {
                row.shape->0@.len()
            } else {
                0
            },
        },
        texts_weight(Seq::empty()) == 0,
        forall|texts: Seq<String>, text: String| #[trigger]
            texts_weight(texts.push(text)) == texts_weight(texts) + 4 + encode_utf8(text@).len(),
{
    assert(properties.push(property).drop_last() =~= properties);
    assert forall|texts: Seq<String>, text: String| #[trigger]
        texts_weight(texts.push(text)) == texts_weight(texts) + 4 + encode_utf8(text@).len() by {
        assert(texts.push(text).drop_last() =~= texts);
    }
}

} // verus!
