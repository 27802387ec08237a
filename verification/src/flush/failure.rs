//! Why a flush fails.

use vstd::prelude::*;

use crate::scalar::{Scalar, ScalarType};

verus! {

/// Why a flush fails before anything of it is published.
#[derive(Debug, PartialEq, Eq)]
pub enum FlushFailed {
    /// An entity past the `u32` space postings and columns number entities in.
    EntityTooWide { entity: u64 },
    /// A term of the extension range with no descriptor in the flush's snapshot.
    NoDescriptor { term: u32 },
    /// Promoting one more descriptor would carry the dictionary to `next`, at or past the most
    /// terms it may hold.
    TooManyTerms { next: u64, most: u64 },
    /// A row carries `held` cells and a render column is declared at position `index`.
    NoRenderCell { held: usize, index: usize },
    /// A row carries `held` cells and `column` is declared at position `index`.
    NoCell { held: usize, column: String, index: usize },
    /// A cell of a type other than its column's, or a code that the column is too narrow for.
    WrongType { column: String, ty: ScalarType, cell: Scalar },
    /// A cell of a text column that is not text.
    NotText { column: String, cell: Scalar },
    /// A column declared at a position past the `u16` space record fields are tagged in.
    TagTooWide { column: String, index: usize },
}

} // verus!
