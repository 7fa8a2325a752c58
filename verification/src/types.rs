//! The error taxonomy of the history engine.

use vstd::prelude::*;

verus! {

/// Everything that can go wrong while importing or querying history.
///
/// `InvalidHistoryLine` carries the offending line for diagnostics.
/// `EmptyLine` is a skip signal, never surfaced by the import pipeline.
/// `Database` and `IO` wrap failures of a storage backend or of an input
/// stream; the verified in-memory store never produces them, but callers
/// that wire the engine to real storage or streams report through them.
#[derive(Debug, PartialEq, Eq)]
pub enum Error {
    InvalidHistoryLine(String),
    EmptyLine,
    Database(String),
    IO(String),
}

impl Error {
    /// A short description of the failure, with any wrapped detail.
    pub fn message(&self) -> (r: String)
        ensures
            *self matches Error::InvalidHistoryLine(_) ==> r@ == "invalid history line"@,
            *self is EmptyLine ==> r@ == "empty line"@,
            *self matches Error::Database(m) ==> r@ == m@,
            *self matches Error::IO(m) ==> r@ == m@,
    {
        match self {
            Error::InvalidHistoryLine(_) => String::from_str("invalid history line"),
            Error::EmptyLine => String::from_str("empty line"),
            Error::Database(m) => m.clone(),
            Error::IO(m) => m.clone(),
        }
    }
}

} // verus!
