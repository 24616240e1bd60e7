use vstd::prelude::*;

verus! {

/// Why an ingestion call failed. No call hands back a partial matrix.
#[derive(Clone, Copy, Debug, PartialEq, Eq, Structural)]
pub enum IngestError {
    /// No file matched the folder's pattern.
    NotFound,
    /// A file name's stem is not the decimal text of a finite number.
    MalformedName,
    /// A file could not be opened or read.
    Io,
    /// A token is not a number, or the rows of one file differ in width.
    Parse,
    /// The layers cannot be joined into one five-column matrix.
    ShapeMismatch,
}

} // verus!
