//! The records requests a caller can correct.

use vstd::prelude::*;

verus! {

/// A records request the caller can correct.
#[derive(Clone, Debug, PartialEq, Eq)]
pub enum RecordsRefused {
    /// No declared field, or none this viewer's groups reach, has this name.
    UnknownField(String),
    RepeatedField(String),
    /// A group-scoped field named bare under a view that decides none of its group's columns.
    Unpinned { field: String, group: String },
    /// A group-scoped text field, which has no stored value.
    ScopedText(String),
    /// A pin on a field that is not group-scoped.
    PinOnUnscoped(String),
    UnknownSystemField(String),
    ZeroPageRows,
    ZeroPages,
    CountWithCursor,
}

/// What a refusal says.
pub enum Refusal {
    UnknownField(Seq<char>),
    RepeatedField(Seq<char>),
    Unpinned { field: Seq<char>, group: Seq<char> },
    ScopedText(Seq<char>),
    PinOnUnscoped(Seq<char>),
    UnknownSystemField(Seq<char>),
    ZeroPageRows,
    ZeroPages,
    CountWithCursor,
}

impl View for RecordsRefused {
    type V = Refusal;

    open spec fn view(&self) -> Refusal {
        match *self {
            RecordsRefused::UnknownField(name) => Refusal::UnknownField(name@),
            RecordsRefused::RepeatedField(name) => Refusal::RepeatedField(name@),
            RecordsRefused::Unpinned { field, group } => Refusal::Unpinned {
                field: field@,
                group: group@,
            },
            RecordsRefused::ScopedText(name) => Refusal::ScopedText(name@),
            RecordsRefused::PinOnUnscoped(name) => Refusal::PinOnUnscoped(name@),
            RecordsRefused::UnknownSystemField(name) => Refusal::UnknownSystemField(name@),
            RecordsRefused::ZeroPageRows => Refusal::ZeroPageRows,
            RecordsRefused::ZeroPages => Refusal::ZeroPages,
            RecordsRefused::CountWithCursor => Refusal::CountWithCursor,
        }
    }
}

impl Refusal {
    /// The refusal in words.
    pub open spec fn text(self) -> Seq<char> {
        match self {
            Refusal::UnknownField(name) => "field '"@ + name
                + "' is not declared; name a field /v1/meta publishes"@,
            Refusal::RepeatedField(name) => "field '"@ + name
                + "' is named twice; name each field once"@,
            Refusal::Unpinned { field, group } => "field '"@ + field
                + "' is declared per view of group '"@ + group
                + "', and this view decides none of them; pin one as '"@ + field + "@<key>'"@,
            Refusal::ScopedText(name) => "field '"@ + name
                + "' is a group-scoped text field, which has no stored value to return; leave it out of fields"@,
            Refusal::PinOnUnscoped(name) => "field '"@ + name
                + "' is not group-scoped, so it takes no pin; name it without '@'"@,
            Refusal::UnknownSystemField(name) => "system field '"@ + name
                + "' is none of position, external_id or labels; name one of those"@,
            Refusal::ZeroPageRows => "page_rows is 0; ask for at least one row per page, or leave it out for the ceiling"@,
            Refusal::ZeroPages => "pages is 0; ask for at least one page, or leave it out for as many as the response allows"@,
            Refusal::CountWithCursor => "count is asked for with a cursor; ask for counts on a request without one"@,
        }
    }
}

impl RecordsRefused {
    /// The refusal in words.
    pub fn message(&self) -> (text: String)
        ensures
            text@ == self@.text(),
    {
        match self {
            RecordsRefused::UnknownField(name) => String::from_str("field '").concat(
                name.as_str(),
            ).concat("' is not declared; name a field /v1/meta publishes"),
            RecordsRefused::RepeatedField(name) => String::from_str("field '").concat(
                name.as_str(),
            ).concat("' is named twice; name each field once"),
            RecordsRefused::Unpinned { field, group } => String::from_str("field '").concat(
                field.as_str(),
            ).concat("' is declared per view of group '").concat(group.as_str()).concat(
                "', and this view decides none of them; pin one as '",
            ).concat(field.as_str()).concat("@<key>'"),
            RecordsRefused::ScopedText(name) => String::from_str("field '").concat(
                name.as_str(),
            ).concat(
                "' is a group-scoped text field, which has no stored value to return; leave it out of fields",
            ),
            RecordsRefused::PinOnUnscoped(name) => String::from_str("field '").concat(
                name.as_str(),
            ).concat("' is not group-scoped, so it takes no pin; name it without '@'"),
            RecordsRefused::UnknownSystemField(name) => String::from_str("system field '").concat(
                name.as_str(),
            ).concat("' is none of position, external_id or labels; name one of those"),
            RecordsRefused::ZeroPageRows => String::from_str(
                "page_rows is 0; ask for at least one row per page, or leave it out for the ceiling",
            ),
            RecordsRefused::ZeroPages => String::from_str(
                "pages is 0; ask for at least one page, or leave it out for as many as the response allows",
            ),
            RecordsRefused::CountWithCursor => String::from_str(
                "count is asked for with a cursor; ask for counts on a request without one",
            ),
        }
    }
}

/// Why a request's own arguments refuse it, if they do: the page size is looked at first, then the
/// pages, then the count.
pub open spec fn shape_refusal(
    page_rows: Option<u32>,
    pages: Option<u32>,
    count: bool,
    resumes: bool,
) -> Option<Refusal> {
    if page_rows == Some(0u32) {
        Some(Refusal::ZeroPageRows)
    } else if pages == Some(0u32) {
        Some(Refusal::ZeroPages)
    } else if count && resumes {
        Some(Refusal::CountWithCursor)
    } else {
        None
    }
}

/// The refusals a request's own arguments decide, before anything is read.
pub fn refuse_shape(
    page_rows: Option<u32>,
    pages: Option<u32>,
    count: bool,
    resumes: bool,
) -> (out: Result<(), RecordsRefused>)
    ensures
        out is Ok <==> shape_refusal(page_rows, pages, count, resumes) is None,
        out matches Err(why) ==> shape_refusal(page_rows, pages, count, resumes) == Some(why@),
{
    if let Some(rows) = page_rows {
        if rows == 0 {
            return Err(RecordsRefused::ZeroPageRows);
        }
    }
    if let Some(most) = pages {
        if most == 0 {
            return Err(RecordsRefused::ZeroPages);
        }
    }
    if count && resumes {
        return Err(RecordsRefused::CountWithCursor);
    }
    Ok(())
}

/// The page size used: what was asked for, held to the ceiling, which is at least one row.
pub open spec fn page_size(asked: Option<u32>, max_page_rows: u32) -> u32 {
    let most = if max_page_rows == 0 {
        1u32
    } else {
        max_page_rows
    };
    match asked {
        Some(n) => if n < most {
            n
        } else {
            most
        },
        None => most,
    }
}

/// The page size used: what was asked for, held to the ceiling, which is at least one row.
pub fn page_rows_of(asked: Option<u32>, max_page_rows: u32) -> (rows: u32)
    ensures
        rows == page_size(asked, max_page_rows),
{
    let most: u32 = if max_page_rows == 0 {
        1
    } else {
        max_page_rows
    };
    match asked {
        Some(n) => if n < most {
            n
        } else {
            most
        },
        None => most,
    }
}

/// A page holds as many rows as are asked for, and never more than the most a page may hold, which
/// is at least one; where none are asked for it holds the most.
pub proof fn law_a_page_is_as_large_as_asked_within_its_limit(asked: Option<u32>, max_page_rows: u32)
    ensures
        max_page_rows > 0 ==> page_size(asked, max_page_rows) <= max_page_rows,
        max_page_rows == 0 ==> page_size(asked, max_page_rows) <= 1,
        asked matches Some(n) ==> page_size(asked, max_page_rows) <= n,
        asked matches Some(n) ==> 0 < n <= max_page_rows ==> page_size(asked, max_page_rows) == n,
        asked matches Some(n) ==> 0 < n ==> page_size(asked, max_page_rows) > 0,
        asked matches Some(n) ==> n > max_page_rows > 0 ==> page_size(asked, max_page_rows)
            == max_page_rows,
        asked is None && max_page_rows > 0 ==> page_size(asked, max_page_rows) == max_page_rows,
        asked is None ==> page_size(asked, max_page_rows) > 0,
{
}

/// A request's shape is refused exactly where it asks for pages of no rows, for no pages, or for a
/// count of a read it goes on with; pages of no rows are named first, then no pages.
pub proof fn law_a_shape_is_refused_for_what_is_wrong_with_it(
    page_rows: Option<u32>,
    pages: Option<u32>,
    count: bool,
    resumes: bool,
)
    ensures
        ({
            let why = shape_refusal(page_rows, pages, count, resumes);
            let no_rows = page_rows is Some && page_rows->0 == 0;
            let no_pages = pages is Some && pages->0 == 0;
            &&& why == Some(Refusal::ZeroPageRows) <==> no_rows
            &&& why == Some(Refusal::ZeroPages) <==> no_pages && !no_rows
            &&& why == Some(Refusal::CountWithCursor) <==> count && resumes && !no_rows && !no_pages
            &&& why is None <==> !no_rows && !no_pages && !(count && resumes)
        }),
{
}

} // verus!
