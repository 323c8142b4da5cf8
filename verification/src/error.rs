//! What the operations of this library fail with.

use crate::object::ObjectId;
use vstd::prelude::*;

verus! {

/// A document whose structure cannot be read.
#[derive(Clone, Copy, Debug, PartialEq, Eq)]
pub enum ParseError {
    /// The trailer names no catalog, or what it names is no dictionary.
    MissingCatalog,
    /// A reference names an object that the document does not hold.
    DanglingReference(ObjectId),
    /// An object that must be a dictionary is none.
    NotADictionary(ObjectId),
}

/// A request that is refused before any work is done.
#[derive(Clone, Copy, Debug, PartialEq, Eq)]
pub enum ValidationError {
    /// A rotation that is no multiple of a quarter turn.
    InvalidAngle,
    /// A date that cannot be written: its instant or its offset is out of
    /// range.
    InvalidDate,
}

/// A failure of an operation on documents.
#[derive(Clone, Copy, Debug, PartialEq, Eq)]
pub enum PdfError {
    Parse(ParseError),
    Validation(ValidationError),
}

} // verus!
