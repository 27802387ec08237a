//! Reads of records, page by page.

use vstd::prelude::*;

pub mod arrays;
pub mod artifact_rows;
pub mod artifacts;
pub mod batch;
pub mod columns;
pub mod coverage;
pub mod cursor;
pub mod items;
pub mod page;
pub mod plan;
pub mod reading;
pub mod refused;
pub mod sealing;
pub mod serve;
pub mod stretch;
pub mod take;
pub mod walk;

verus! {

/// The order a read returns its rows in. Both return the same rows.
#[derive(Clone, Copy, Debug, PartialEq, Eq, Structural)]
pub enum RecordsOrder {
    /// By map cell in the view, then id.
    ByMap,
    /// By the internal item numbering the record store holds rows in.
    Stored,
}

impl RecordsOrder {
    /// The order's name.
    pub open spec fn text(self) -> Seq<char> {
        match self {
            RecordsOrder::ByMap => "map"@,
            RecordsOrder::Stored => "stored"@,
        }
    }

    pub fn as_str(self) -> (text: &'static str)
        ensures
            text@ == self.text(),
    {
        match self {
            RecordsOrder::ByMap => "map",
            RecordsOrder::Stored => "stored",
        }
    }
}

/// Why a page ended.
#[derive(Clone, Copy, Debug, PartialEq, Eq, Structural)]
pub enum PageEndedBy {
    /// It holds the page size.
    Rows,
    /// The next row would have taken it past the byte ceiling.
    Bytes,
    /// The response's time ran out, or it was cancelled, while the page held rows.
    Time,
    /// No row remains.
    End,
}

impl PageEndedBy {
    /// The reason's name.
    pub open spec fn text(self) -> Seq<char> {
        match self {
            PageEndedBy::Rows => "rows"@,
            PageEndedBy::Bytes => "bytes"@,
            PageEndedBy::Time => "time"@,
            PageEndedBy::End => "end"@,
        }
    }

    pub fn as_str(self) -> (text: &'static str)
        ensures
            text@ == self.text(),
    {
        match self {
            PageEndedBy::Rows => "rows",
            PageEndedBy::Bytes => "bytes",
            PageEndedBy::Time => "time",
            PageEndedBy::End => "end",
        }
    }
}

/// Why a response ended.
#[derive(Clone, Copy, Debug, PartialEq, Eq, Structural)]
pub enum ResponseEndedBy {
    End,
    Pages,
    BudgetBytes,
    BudgetTime,
    /// Cancelled.
    Deadline,
}

impl ResponseEndedBy {
    /// The reason's name.
    pub open spec fn text(self) -> Seq<char> {
        match self {
            ResponseEndedBy::End => "end"@,
            ResponseEndedBy::Pages => "pages"@,
            ResponseEndedBy::BudgetBytes => "budget_bytes"@,
            ResponseEndedBy::BudgetTime => "budget_time"@,
            ResponseEndedBy::Deadline => "deadline"@,
        }
    }

    pub fn as_str(self) -> (text: &'static str)
        ensures
            text@ == self.text(),
    {
        match self {
            ResponseEndedBy::End => "end",
            ResponseEndedBy::Pages => "pages",
            ResponseEndedBy::BudgetBytes => "budget_bytes",
            ResponseEndedBy::BudgetTime => "budget_time",
            ResponseEndedBy::Deadline => "deadline",
        }
    }
}

} // verus!
